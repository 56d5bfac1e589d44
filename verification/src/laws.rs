//! General laws of the algebra, stated once over the mathematical model and
//! proved for every value.

use crate::arith::gcd_nat;
use crate::epsilon::{approx_at_spec, lemma_approx_reflexive, EpsilonTier};
use crate::matrix::{
    cof_seq, det_seq, id_seq, m_canon, m_mul_ok, m_wf, row_col, row_col_ok, sub_seq,
};
use crate::rat::{
    add_ok, canon, fits, iabs, is_canon, lemma_canon, lemma_canon_id, lemma_rop_values, mul_ok,
    qadd, qdiv, qmul, qneg, qsub, radd, rat_eq, rat_one, rat_zero, rdiv, rmul, rsub, Rat,
};
use vstd::arithmetic::div_mod::{
    lemma_fundamental_div_mod, lemma_fundamental_div_mod_converse, lemma_mod_self_0,
};
use vstd::prelude::*;

verus! {

/// Zero and one are canonical.
proof fn lemma_units_canon()
    ensures
        is_canon(rat_zero()),
        is_canon(rat_one()),
        fits(rat_zero()),
        fits(rat_one()),
{
    lemma_fundamental_div_mod(0, 1);
    lemma_fundamental_div_mod(1, 1);
    assert(gcd_nat(0, 1) == 1) by {
        assert(0nat % 1nat == 0);
        assert(gcd_nat(1, 0) == 1);
    }
    assert(gcd_nat(1, 1) == 1) by {
        assert(1nat % 1nat == 0);
        assert(gcd_nat(1, 0) == 1);
    }
}

/// The canonical form of `0 / d` is zero.
proof fn lemma_canon_zero(d: int)
    requires
        d > 0,
    ensures
        canon(0, d) == rat_zero(),
{
    lemma_mod_self_0(d);
    assert(iabs(0) == 0);
    assert(gcd_nat(0, d as nat) == d as nat) by {
        assert(0nat % (d as nat) == 0) by {
            vstd::arithmetic::div_mod::lemma_small_mod(0nat, d as nat);
        }
        assert(gcd_nat(d as nat, 0) == d as nat);
    }
    lemma_fundamental_div_mod_converse(0, d, 0, 0);
    lemma_fundamental_div_mod_converse(d, d, 1, 0);
}

/// Adding zero on the right returns the value, within bounds.
proof fn lemma_radd_zero_r(x: Rat)
    requires
        is_canon(x),
        fits(x),
    ensures
        add_ok(x, rat_zero()),
        radd(x, rat_zero()) == x,
{
    assert(qadd(x, rat_zero()) == x);
    lemma_canon_id(x);
}

/// Adding a value to zero returns the value, within bounds.
proof fn lemma_radd_zero_l(x: Rat)
    requires
        is_canon(x),
        fits(x),
    ensures
        add_ok(rat_zero(), x),
        radd(rat_zero(), x) == x,
{
    assert(qadd(rat_zero(), x) == x);
    lemma_canon_id(x);
}

/// Multiplying by one returns the value, within bounds.
proof fn lemma_rmul_one(x: Rat)
    requires
        is_canon(x),
        fits(x),
    ensures
        mul_ok(x, rat_one()),
        rmul(x, rat_one()) == x,
{
    assert(qmul(x, rat_one()) == x);
    lemma_canon_id(x);
}

/// Multiplying by zero gives zero, within bounds.
proof fn lemma_rmul_zero(x: Rat)
    requires
        x.d > 0,
    ensures
        mul_ok(x, rat_zero()),
        rmul(x, rat_zero()) == rat_zero(),
{
    assert(qmul(x, rat_zero()) == (Rat { n: 0, d: x.d }));
    lemma_canon_zero(x.d);
    lemma_units_canon();
}

/// The running identity product: after `k` terms the sum holds the entry
/// once column `j` has been passed, and zero before.
proof fn lemma_row_col_id(m: Seq<Seq<Rat>>, i: int, j: int, k: int)
    requires
        m_wf(m),
        m_canon(m),
        0 <= i < m.len(),
        0 <= j < m.len(),
        0 <= k <= m.len(),
    ensures
        row_col_ok(m, id_seq(m.len() as int), i, j, k),
        row_col(m, id_seq(m.len() as int), i, j, k) == (if j < k {
            m[i][j]
        } else {
            rat_zero()
        }),
    decreases k,
{
    let id = id_seq(m.len() as int);
    lemma_units_canon();
    if k > 0 {
        lemma_row_col_id(m, i, j, k - 1);
        let prev = row_col(m, id, i, j, k - 1);
        if k - 1 == j {
            assert(id[k - 1][j] == rat_one());
            lemma_rmul_one(m[i][j]);
            assert(prev == rat_zero());
            lemma_radd_zero_l(m[i][j]);
        } else {
            assert(id[k - 1][j] == rat_zero());
            lemma_rmul_zero(m[i][k - 1]);
            if j < k - 1 {
                lemma_radd_zero_r(m[i][j]);
            } else {
                lemma_radd_zero_r(rat_zero());
            }
        }
    }
}

/// Multiplying any square matrix by the identity returns the matrix, entry
/// for entry — exactly, and therefore also under the tolerant equality at
/// the standard tier.  `Matrix::wf_facts` discharges both hypotheses for
/// any matrix value.
pub proof fn lemma_mul_identity(m: Seq<Seq<Rat>>)
    requires
        m_wf(m),
        m_canon(m),
    ensures
        m_mul_ok(m, id_seq(m.len() as int)),
        forall|i: int, j: int|
            0 <= i < m.len() && 0 <= j < m.len() ==> #[trigger] row_col(
                m,
                id_seq(m.len() as int),
                i,
                j,
                m.len() as int,
            ) == m[i][j],
        forall|i: int, j: int|
            0 <= i < m.len() && 0 <= j < m.len() ==> approx_at_spec(
                #[trigger] row_col(m, id_seq(m.len() as int), i, j, m.len() as int),
                m[i][j],
                EpsilonTier::Standard,
            ),
{
    assert forall|i: int, j: int| 0 <= i < m.len() && 0 <= j < m.len() implies #[trigger] row_col_ok(
        m,
        id_seq(m.len() as int),
        i,
        j,
        m.len() as int,
    ) by {
        lemma_row_col_id(m, i, j, m.len() as int);
    }
    assert forall|i: int, j: int| 0 <= i < m.len() && 0 <= j < m.len() implies #[trigger] row_col(
        m,
        id_seq(m.len() as int),
        i,
        j,
        m.len() as int,
    ) == m[i][j] by {
        lemma_row_col_id(m, i, j, m.len() as int);
    }
    assert forall|i: int, j: int| 0 <= i < m.len() && 0 <= j < m.len() implies approx_at_spec(
        #[trigger] row_col(m, id_seq(m.len() as int), i, j, m.len() as int),
        m[i][j],
        EpsilonTier::Standard,
    ) by {
        lemma_row_col_id(m, i, j, m.len() as int);
        lemma_approx_reflexive(m[i][j], EpsilonTier::Standard);
    }
}


/// The value of a canonical quotient is the raw quotient.
proof fn lemma_rdiv_value(y: Rat, dt: Rat)
    requires
        y.d > 0,
        dt.d > 0,
        dt.n != 0,
    ensures
        qdiv(y, dt).d > 0,
        rdiv(y, dt).d > 0,
        rat_eq(rdiv(y, dt), qdiv(y, dt)),
{
    assert(qdiv(y, dt).d > 0) by (nonlinear_arith)
        requires
            y.d > 0,
            dt.d > 0,
            dt.n != 0,
    ;
    lemma_canon(qdiv(y, dt).n, qdiv(y, dt).d);
}

/// Scaling a quotient scales its numerator.
proof fn lemma_mul_of_div(x: Rat, y: Rat, dt: Rat)
    requires
        x.d > 0,
        y.d > 0,
        dt.d > 0,
        dt.n != 0,
    ensures
        qdiv(qmul(x, y), dt).d > 0,
        rat_eq(qmul(x, qdiv(y, dt)), qdiv(qmul(x, y), dt)),
{
    assert(qdiv(qmul(x, y), dt).d > 0 && rat_eq(qmul(x, qdiv(y, dt)), qdiv(qmul(x, y), dt)))
        by (nonlinear_arith)
        requires
            x.d > 0,
            y.d > 0,
            dt.d > 0,
            dt.n != 0,
    ;
}

/// The cross-multiplied form of adding two fractions over one scaled
/// denominator: a ring identity, taken in small steps.
proof fn lemma_cross_core(pn: int, pd: int, qn: int, qd: int, u: int, v: int)
    ensures
        ((pn * u) * (qd * v) + (qn * u) * (pd * v)) * ((pd * qd) * v) == ((pn * qd + qn * pd) * u)
            * ((pd * v) * (qd * v)),
{
    vstd::arithmetic::mul::lemma_mul_is_distributive_add_other_way(
        (pd * qd) * v,
        (pn * u) * (qd * v),
        (qn * u) * (pd * v),
    );
    vstd::arithmetic::mul::lemma_mul_is_distributive_add_other_way(u, pn * qd, qn * pd);
    vstd::arithmetic::mul::lemma_mul_is_distributive_add_other_way(
        (pd * v) * (qd * v),
        (pn * qd) * u,
        (qn * pd) * u,
    );
    assert(((pn * u) * (qd * v)) * ((pd * qd) * v) == ((pn * qd) * u) * ((pd * v) * (qd * v)))
        by (nonlinear_arith);
    assert(((qn * u) * (pd * v)) * ((pd * qd) * v) == ((qn * pd) * u) * ((pd * v) * (qd * v)))
        by (nonlinear_arith);
}

/// Quotients over one divisor add by adding their numerators.
proof fn lemma_div_add(p: Rat, q: Rat, dt: Rat)
    requires
        p.d > 0,
        q.d > 0,
        dt.d > 0,
        dt.n != 0,
    ensures
        qadd(qdiv(p, dt), qdiv(q, dt)).d > 0,
        qdiv(qadd(p, q), dt).d > 0,
        rat_eq(qadd(qdiv(p, dt), qdiv(q, dt)), qdiv(qadd(p, q), dt)),
{
    if dt.n > 0 {
        lemma_cross_core(p.n, p.d, q.n, q.d, dt.d, dt.n);
        assert(qadd(qdiv(p, dt), qdiv(q, dt)).d > 0 && qdiv(qadd(p, q), dt).d > 0)
            by (nonlinear_arith)
            requires
                p.d > 0,
                q.d > 0,
                dt.d > 0,
                dt.n > 0,
        ;
    } else {
        // The quotient negates both parts; the same identity applies with
        // the signs folded into the scale factors.
        assert(qdiv(p, dt) == (Rat { n: -((p.n) * dt.d), d: -((p.d) * dt.n) }));
        assert((-((p.n) * dt.d)) == (p.n) * (-dt.d) && (-((p.d) * dt.n)) == (p.d) * (-dt.n))
            by (nonlinear_arith);
        lemma_cross_core(p.n, p.d, q.n, q.d, -dt.d, -dt.n);
        assert(qadd(qdiv(p, dt), qdiv(q, dt)).d > 0 && qdiv(qadd(p, q), dt).d > 0)
            by (nonlinear_arith)
            requires
                p.d > 0,
                q.d > 0,
                dt.d > 0,
                dt.n < 0,
        ;
        assert((-((q.n) * dt.d)) == (q.n) * (-dt.d) && (-((q.d) * dt.n)) == (q.d) * (-dt.n))
            by (nonlinear_arith);
        assert((-((p.n * q.d + q.n * p.d) * dt.d)) == (p.n * q.d + q.n * p.d) * (-dt.d))
            by (nonlinear_arith);
        assert((-((p.d * q.d) * dt.n)) == (p.d * q.d) * (-dt.n)) by (nonlinear_arith);
    }
}

/// A quotient is one exactly when numerator and divisor agree in value, and
/// zero exactly when the numerator is zero in value.
proof fn lemma_div_outcomes(p: Rat, dt: Rat)
    requires
        p.d > 0,
        dt.d > 0,
        dt.n != 0,
    ensures
        rat_eq(p, dt) ==> rat_eq(qdiv(p, dt), rat_one()),
        p.n == 0 ==> rat_eq(qdiv(p, dt), rat_zero()),
{
    assert((rat_eq(p, dt) ==> rat_eq(qdiv(p, dt), rat_one())) && (p.n == 0 ==> rat_eq(
        qdiv(p, dt),
        rat_zero(),
    ))) by (nonlinear_arith)
        requires
            p.d > 0,
            dt.d > 0,
            dt.n != 0,
    ;
}

/// One product entry: a two-term sum of scaled quotients over the
/// determinant equals the quotient of the combined numerator.
proof fn lemma_entry_value(x1: Rat, x2: Rat, y1: Rat, y2: Rat, dt: Rat) -> (num: Rat)
    requires
        x1.d > 0,
        x2.d > 0,
        y1.d > 0,
        y2.d > 0,
        dt.d > 0,
        dt.n != 0,
    ensures
        num == qadd(qmul(x1, y1), qmul(x2, y2)),
        num.d > 0,
        qdiv(num, dt).d > 0,
        radd(radd(rat_zero(), rmul(x1, rdiv(y1, dt))), rmul(x2, rdiv(y2, dt))).d > 0,
        rat_eq(
            radd(radd(rat_zero(), rmul(x1, rdiv(y1, dt))), rmul(x2, rdiv(y2, dt))),
            qdiv(num, dt),
        ),
{
    let w1 = rdiv(y1, dt);
    let w2 = rdiv(y2, dt);
    lemma_rdiv_value(y1, dt);
    lemma_rdiv_value(y2, dt);
    lemma_mul_of_div(x1, y1, dt);
    lemma_mul_of_div(x2, y2, dt);
    lemma_rop_values(x1, w1);
    lemma_rop_values(x2, w2);
    lemma_rop_values(x1, qdiv(y1, dt));
    lemma_rop_values(x2, qdiv(y2, dt));
    assert(qadd(qmul(x1, y1), qmul(x2, y2)).d > 0 && qmul(x1, y1).d > 0 && qmul(x2, y2).d > 0)
        by (nonlinear_arith)
        requires
            x1.d > 0,
            x2.d > 0,
            y1.d > 0,
            y2.d > 0,
    ;
    crate::rat::lemma_rat_eq_congruence(x1, w1, x1, qdiv(y1, dt));
    crate::rat::lemma_rat_eq_congruence(x2, w2, x2, qdiv(y2, dt));
    let t1 = rmul(x1, w1);
    let t2 = rmul(x2, w2);
    // t1 ~ x1 * (y1 / dt) ~ (x1 * y1) / dt, and likewise t2.
    crate::rat::lemma_rat_eq_trans(t1, qmul(x1, w1), qmul(x1, qdiv(y1, dt)));
    crate::rat::lemma_rat_eq_trans(t1, qmul(x1, qdiv(y1, dt)), qdiv(qmul(x1, y1), dt));
    crate::rat::lemma_rat_eq_trans(t2, qmul(x2, w2), qmul(x2, qdiv(y2, dt)));
    crate::rat::lemma_rat_eq_trans(t2, qmul(x2, qdiv(y2, dt)), qdiv(qmul(x2, y2), dt));
    // The zero seed drops out.
    let s1 = radd(rat_zero(), t1);
    lemma_units_canon();
    lemma_rop_values(rat_zero(), t1);
    assert(qadd(rat_zero(), t1) == t1);
    crate::rat::lemma_rat_eq_trans(s1, qadd(rat_zero(), t1), qdiv(qmul(x1, y1), dt));
    // Combine the two quotients.
    let s = radd(s1, t2);
    lemma_rop_values(s1, t2);
    crate::rat::lemma_rat_eq_congruence(s1, t2, qdiv(qmul(x1, y1), dt), qdiv(qmul(x2, y2), dt));
    lemma_rdiv_value(qmul(x1, y1), dt);
    lemma_rdiv_value(qmul(x2, y2), dt);
    lemma_div_add(qmul(x1, y1), qmul(x2, y2), dt);
    crate::rat::lemma_rat_eq_trans(
        s,
        qadd(s1, t2),
        qadd(qdiv(qmul(x1, y1), dt), qdiv(qmul(x2, y2), dt)),
    );
    crate::rat::lemma_rat_eq_trans(
        s,
        qadd(qdiv(qmul(x1, y1), dt), qdiv(qmul(x2, y2), dt)),
        qdiv(qadd(qmul(x1, y1), qmul(x2, y2)), dt),
    );
    qadd(qmul(x1, y1), qmul(x2, y2))
}

/// The inverse law in dimension two: a matrix with a nonzero determinant,
/// multiplied by its adjugate-over-determinant inverse, gives the identity
/// in value — hence also under the tolerant equality at every tier.
pub proof fn lemma_inverse_law_dim_two(m: Seq<Seq<Rat>>, w: Seq<Seq<Rat>>)
    requires
        m.len() == 2,
        w.len() == 2,
        m_wf(m),
        m_canon(m),
        !crate::rat::rat_eq(det_seq(m), rat_zero()),
        forall|i: int, j: int|
            0 <= i < 2 && 0 <= j < 2 ==> #[trigger] w[i][j] == crate::rat::rdiv(
                cof_seq(m, j, i),
                det_seq(m),
            ),
    ensures
        forall|i: int, j: int|
            0 <= i < 2 && 0 <= j < 2 ==> rat_eq(
                #[trigger] row_col(m, w, i, j, 2),
                if i == j {
                    rat_one()
                } else {
                    rat_zero()
                },
            ),
{
    let a = m[0][0];
    let b = m[0][1];
    let c = m[1][0];
    let d = m[1][1];
    let dt = det_seq(m);
    assert(sub_seq(m, 0, 0)[0][0] == d && sub_seq(m, 0, 1)[0][0] == c && sub_seq(m, 1, 0)[0][0]
        == b && sub_seq(m, 1, 1)[0][0] == a);
    assert(cof_seq(m, 0, 0) == d && cof_seq(m, 0, 1) == qneg(c) && cof_seq(m, 1, 0) == qneg(b)
        && cof_seq(m, 1, 1) == a);
    lemma_rop_values(a, d);
    lemma_rop_values(b, c);
    lemma_rop_values(rmul(a, d), rmul(b, c));
    crate::rat::lemma_rat_eq_congruence(rmul(a, d), rmul(b, c), qmul(a, d), qmul(b, c));
    assert(dt.d > 0 && rat_eq(dt, qsub(qmul(a, d), qmul(b, c)))) by {
        assert(qsub(qmul(a, d), qmul(b, c)).d > 0) by (nonlinear_arith)
            requires
                a.d > 0,
                b.d > 0,
                c.d > 0,
                d.d > 0,
        ;
        crate::rat::lemma_rat_eq_trans(
            rsub(rmul(a, d), rmul(b, c)),
            qsub(rmul(a, d), rmul(b, c)),
            qsub(qmul(a, d), qmul(b, c)),
        );
    }
    assert(dt.n != 0) by (nonlinear_arith)
        requires
            dt.d > 0,
            !(dt.n * 1 == 0 * dt.d),
    ;
    // Entry (0, 0): (a * d - b * c) over the determinant.
    let n00 = lemma_entry_value(a, b, d, qneg(c), dt);
    assert(rat_eq(n00, dt)) by (nonlinear_arith)
        requires
            n00 == qadd(qmul(a, d), qmul(b, qneg(c))),
            rat_eq(dt, qsub(qmul(a, d), qmul(b, c))),
            a.d > 0,
            b.d > 0,
            c.d > 0,
            d.d > 0,
            dt.d > 0,
    ;
    lemma_div_outcomes(n00, dt);
    assert(w[0][0] == rdiv(d, dt) && w[1][0] == rdiv(qneg(c), dt));
    assert(row_col(m, w, 0, 0, 0) == rat_zero());
    assert(row_col(m, w, 0, 0, 1) == radd(rat_zero(), rmul(a, rdiv(d, dt))));
    assert(row_col(m, w, 0, 0, 2) == radd(
        radd(rat_zero(), rmul(a, rdiv(d, dt))),
        rmul(b, rdiv(qneg(c), dt)),
    ));
    crate::rat::lemma_rat_eq_trans(row_col(m, w, 0, 0, 2), qdiv(n00, dt), rat_one());
    // Entry (0, 1): a * (-b) + b * a vanishes.
    let n01 = lemma_entry_value(a, b, qneg(b), a, dt);
    assert(n01.n == 0) by (nonlinear_arith)
        requires
            n01 == qadd(qmul(a, qneg(b)), qmul(b, a)),
    ;
    lemma_div_outcomes(n01, dt);
    assert(w[0][1] == rdiv(qneg(b), dt) && w[1][1] == rdiv(a, dt));
    assert(row_col(m, w, 0, 1, 0) == rat_zero());
    assert(row_col(m, w, 0, 1, 1) == radd(rat_zero(), rmul(a, rdiv(qneg(b), dt))));
    assert(row_col(m, w, 0, 1, 2) == radd(
        radd(rat_zero(), rmul(a, rdiv(qneg(b), dt))),
        rmul(b, rdiv(a, dt)),
    ));
    crate::rat::lemma_rat_eq_trans(row_col(m, w, 0, 1, 2), qdiv(n01, dt), rat_zero());
    // Entry (1, 0): c * d + d * (-c) vanishes.
    let n10 = lemma_entry_value(c, d, d, qneg(c), dt);
    assert(n10.n == 0) by (nonlinear_arith)
        requires
            n10 == qadd(qmul(c, d), qmul(d, qneg(c))),
    ;
    lemma_div_outcomes(n10, dt);
    assert(w[0][0] == rdiv(d, dt) && w[1][0] == rdiv(qneg(c), dt));
    assert(row_col(m, w, 1, 0, 0) == rat_zero());
    assert(row_col(m, w, 1, 0, 1) == radd(rat_zero(), rmul(c, rdiv(d, dt))));
    assert(row_col(m, w, 1, 0, 2) == radd(
        radd(rat_zero(), rmul(c, rdiv(d, dt))),
        rmul(d, rdiv(qneg(c), dt)),
    ));
    crate::rat::lemma_rat_eq_trans(row_col(m, w, 1, 0, 2), qdiv(n10, dt), rat_zero());
    // Entry (1, 1): d * a - c * b over the determinant.
    let n11 = lemma_entry_value(c, d, qneg(b), a, dt);
    assert(rat_eq(n11, dt)) by (nonlinear_arith)
        requires
            n11 == qadd(qmul(c, qneg(b)), qmul(d, a)),
            rat_eq(dt, qsub(qmul(a, d), qmul(b, c))),
            a.d > 0,
            b.d > 0,
            c.d > 0,
            d.d > 0,
            dt.d > 0,
    ;
    lemma_div_outcomes(n11, dt);
    assert(w[0][1] == rdiv(qneg(b), dt) && w[1][1] == rdiv(a, dt));
    assert(row_col(m, w, 1, 1, 0) == rat_zero());
    assert(row_col(m, w, 1, 1, 1) == radd(rat_zero(), rmul(c, rdiv(qneg(b), dt))));
    assert(row_col(m, w, 1, 1, 2) == radd(
        radd(rat_zero(), rmul(c, rdiv(qneg(b), dt))),
        rmul(d, rdiv(a, dt)),
    ));
    crate::rat::lemma_rat_eq_trans(row_col(m, w, 1, 1, 2), qdiv(n11, dt), rat_one());
}

} // verus!
