//! Square matrices of exact scalars, stored row-major in a flat buffer.
//! Construction from a buffer fails on a length mismatch; the determinant is
//! the recursive Laplace expansion along the first row through submatrices,
//! minors and cofactors, and the inverse goes through the adjugate, refusing
//! a matrix whose determinant is approximately zero at the tight tier.

use crate::epsilon::{approx_at_spec, EpsilonTier};
use crate::rat::{
    add_ok, div_ok, mul_ok, qneg, radd, rat_one, rat_zero, rdiv, rmul, rsub, sub_ok, Rat,
};
use crate::scalar::Scalar;
use crate::tuple::{Quad, Tuple4};
use vstd::prelude::*;

verus! {

/// Every entry of the matrix is a canonical, in-range scalar value: true of
/// any matrix the library hands out, and surfaced by `Matrix::wf_facts`.
pub open spec fn m_canon(m: Seq<Seq<Rat>>) -> bool {
    forall|i: int, j: int|
        0 <= i < m.len() && 0 <= j < m.len() ==> crate::rat::is_canon(#[trigger] m[i][j])
            && crate::rat::fits(m[i][j])
}

/// The rows are all as long as the matrix is tall, and every entry has a
/// positive denominator.
pub open spec fn m_wf(m: Seq<Seq<Rat>>) -> bool {
    forall|i: int|
        0 <= i < m.len() ==> (#[trigger] m[i]).len() == m.len() && (forall|j: int|
            0 <= j < m.len() ==> (#[trigger] m[i][j]).d > 0)
}

/// The identity matrix of the given dimension, as a ghost value.
pub open spec fn id_seq(dim: int) -> Seq<Seq<Rat>> {
    Seq::new(
        dim as nat,
        |i: int|
            Seq::new(
                dim as nat,
                |j: int|
                    if i == j {
                        rat_one()
                    } else {
                        rat_zero()
                    },
            ),
    )
}

/// The submatrix with the given row and column removed.
pub open spec fn sub_seq(m: Seq<Seq<Rat>>, row: int, col: int) -> Seq<Seq<Rat>> {
    Seq::new(
        (m.len() - 1) as nat,
        |i: int|
            Seq::new(
                (m.len() - 1) as nat,
                |j: int|
                    m[if i < row {
                        i
                    } else {
                        i + 1
                    }][if j < col {
                        j
                    } else {
                        j + 1
                    }],
            ),
    )
}

/// The running sum of the first `k` products of row `i` of `a` against
/// column `j` of `b`.
pub open spec fn row_col(a: Seq<Seq<Rat>>, b: Seq<Seq<Rat>>, i: int, j: int, k: int) -> Rat
    decreases k,
{
    if k <= 0 {
        rat_zero()
    } else {
        radd(row_col(a, b, i, j, k - 1), rmul(a[i][k - 1], b[k - 1][j]))
    }
}

pub open spec fn row_col_ok(a: Seq<Seq<Rat>>, b: Seq<Seq<Rat>>, i: int, j: int, k: int) -> bool
    decreases k,
{
    if k <= 0 {
        true
    } else {
        row_col_ok(a, b, i, j, k - 1) && mul_ok(a[i][k - 1], b[k - 1][j]) && add_ok(
            row_col(a, b, i, j, k - 1),
            rmul(a[i][k - 1], b[k - 1][j]),
        )
    }
}

/// Every entry of the product of `a` and `b` stays within machine bounds.
pub open spec fn m_mul_ok(a: Seq<Seq<Rat>>, b: Seq<Seq<Rat>>) -> bool {
    forall|i: int, j: int|
        0 <= i < a.len() && 0 <= j < a.len() ==> #[trigger] row_col_ok(a, b, i, j, a.len() as int)
}

/// The determinant: the base case is the two-by-two formula (a one-by-one
/// matrix is its entry), and larger matrices expand along the first row.
pub open spec fn det_seq(m: Seq<Seq<Rat>>) -> Rat
    decreases m.len(), m.len() + 1int,
{
    if m.len() <= 0 {
        rat_one()
    } else if m.len() == 1 {
        m[0][0]
    } else if m.len() == 2 {
        rsub(rmul(m[0][0], m[1][1]), rmul(m[0][1], m[1][0]))
    } else {
        laplace(m, m.len() as int)
    }
}

/// The first `k` terms of the Laplace expansion along the first row.
pub open spec fn laplace(m: Seq<Seq<Rat>>, k: int) -> Rat
    decreases m.len(), k,
{
    if k <= 0 {
        rat_zero()
    } else {
        radd(laplace(m, k - 1), rmul(m[0][k - 1], cof_seq(m, 0, k - 1)))
    }
}

/// The cofactor: the minor with the chessboard sign.
pub open spec fn cof_seq(m: Seq<Seq<Rat>>, i: int, j: int) -> Rat
    decreases m.len(), 0int,
{
    if m.len() == 0 {
        rat_zero()
    } else if (i + j) % 2 == 0 {
        det_seq(sub_seq(m, i, j))
    } else {
        qneg(det_seq(sub_seq(m, i, j)))
    }
}

/// The determinant's intermediate values stay within machine bounds.
pub open spec fn det_ok(m: Seq<Seq<Rat>>) -> bool
    decreases m.len(), m.len() + 1int,
{
    if m.len() <= 1 {
        true
    } else if m.len() == 2 {
        mul_ok(m[0][0], m[1][1]) && mul_ok(m[0][1], m[1][0]) && sub_ok(
            rmul(m[0][0], m[1][1]),
            rmul(m[0][1], m[1][0]),
        )
    } else {
        laplace_ok(m, m.len() as int)
    }
}

pub open spec fn laplace_ok(m: Seq<Seq<Rat>>, k: int) -> bool
    decreases m.len(), k,
{
    if k <= 0 {
        true
    } else {
        laplace_ok(m, k - 1) && cof_ok(m, 0, k - 1) && mul_ok(m[0][k - 1], cof_seq(m, 0, k - 1))
            && add_ok(laplace(m, k - 1), rmul(m[0][k - 1], cof_seq(m, 0, k - 1)))
    }
}

pub open spec fn cof_ok(m: Seq<Seq<Rat>>, i: int, j: int) -> bool
    decreases m.len(), 0int,
{
    m.len() > 0 && det_ok(sub_seq(m, i, j))
}

/// Every cofactor of `m` stays within machine bounds and divides by the
/// determinant within machine bounds: what the adjugate inverse computes.
pub open spec fn m_inverse_ok(m: Seq<Seq<Rat>>) -> bool {
    forall|i: int, j: int|
        0 <= i < m.len() && 0 <= j < m.len() ==> #[trigger] cof_ok(m, i, j) && div_ok(
            cof_seq(m, i, j),
            det_seq(m),
        )
}

/// The application of a four-by-four matrix row to a homogeneous tuple.
pub open spec fn row_app(m: Seq<Seq<Rat>>, t: Quad, i: int) -> Rat {
    radd(
        radd(radd(rmul(m[i][0], t.x), rmul(m[i][1], t.y)), rmul(m[i][2], t.z)),
        rmul(m[i][3], t.w),
    )
}

pub open spec fn row_app_ok(m: Seq<Seq<Rat>>, t: Quad, i: int) -> bool {
    mul_ok(m[i][0], t.x) && mul_ok(m[i][1], t.y) && mul_ok(m[i][2], t.z) && mul_ok(m[i][3], t.w)
        && add_ok(rmul(m[i][0], t.x), rmul(m[i][1], t.y)) && add_ok(
        radd(rmul(m[i][0], t.x), rmul(m[i][1], t.y)),
        rmul(m[i][2], t.z),
    ) && add_ok(radd(radd(rmul(m[i][0], t.x), rmul(m[i][1], t.y)), rmul(m[i][2], t.z)), rmul(m[i][3], t.w))
}

/// The row-major position of a cell.
pub open spec fn rm_idx(a: int, b: int, dim: int) -> int {
    a * dim + b
}

/// The value at a cell is one the caller's function returns for that row
/// and column.
pub open spec fn cell_from<F: Fn(usize, usize) -> Scalar>(f: F, cell: Rat, i: usize, j: usize) -> bool {
    exists|v: Scalar| #[trigger] f.ensures((i, j), v) && cell == v@
}

/// Row-major indices of earlier rows stay below the current write position.
proof fn lemma_index_mono(a: int, b: int, i: int, dim: int)
    requires
        0 <= a < i,
        0 <= b < dim,
    ensures
        a * dim + b < i * dim,
{
    assert(a * dim + b < i * dim) by (nonlinear_arith)
        requires
            0 <= a < i,
            0 <= b < dim,
    ;
}

/// A square matrix over exact scalars.
#[derive(Debug)]
pub struct Matrix {
    dim: usize,
    buf: Vec<Scalar>,
}

impl View for Matrix {
    type V = Seq<Seq<Rat>>;

    closed spec fn view(&self) -> Seq<Seq<Rat>> {
        Seq::new(
            self.dim as nat,
            |i: int| Seq::new(self.dim as nat, |j: int| self.buf@[i * (self.dim as int) + j]@),
        )
    }
}

impl Matrix {
    /// The buffer holds exactly one scalar per cell, and the dimension is
    /// small enough that row-major indexing cannot overflow.
    #[verifier::type_invariant]
    pub closed spec fn inv(self) -> bool {
        self.buf@.len() == self.dim * self.dim && self.dim <= 0xffff
    }

    /// The dimension.
    pub fn dim(&self) -> (r: usize)
        ensures
            r as int == self@.len(),
            r <= 0xffff,
    {
        proof {
            use_type_invariant(self);
        }
        self.dim
    }

    /// Surfaces what holds of every matrix the library hands out, so that
    /// callers can discharge the hypotheses of the general laws for a matrix
    /// they did not build themselves: the view is square, every entry is a
    /// canonical in-range value, and the dimension is bounded.
    pub fn wf_facts(&self)
        ensures
            m_wf(self@),
            m_canon(self@),
            self@.len() <= 0xffff,
    {
        proof {
            use_type_invariant(self);
        }
        let mut k: usize = 0;
        while k < self.buf.len()
            invariant
                self.inv(),
                k <= self.buf@.len(),
                forall|t: int|
                    0 <= t < k ==> crate::rat::is_canon((#[trigger] self.buf@[t])@)
                        && crate::rat::fits(self.buf@[t]@),
            decreases self.buf@.len() - k,
        {
            let entry = &self.buf[k];
            proof {
                use_type_invariant(entry);
            }
            k = k + 1;
        }
        proof {
            assert forall|i: int, j: int|
                0 <= i < self@.len() && 0 <= j < self@.len() implies crate::rat::is_canon(
                #[trigger] self@[i][j],
            ) && crate::rat::fits(self@[i][j]) by {
                assert(0 <= rm_idx(i, j, self.dim as int) < self.dim * self.dim)
                    by (nonlinear_arith)
                    requires
                        0 <= i < self.dim,
                        0 <= j < self.dim,
                        rm_idx(i, j, self.dim as int) == i * (self.dim as int) + j,
                ;
                assert(self@[i][j] == self.buf@[rm_idx(i, j, self.dim as int)]@);
            }
            assert forall|i: int| 0 <= i < self@.len() implies (#[trigger] self@[i]).len()
                == self@.len() && (forall|j: int|
                0 <= j < self@.len() ==> (#[trigger] self@[i][j]).d > 0) by {
                assert forall|j: int| 0 <= j < self@.len() implies (#[trigger] self@[i][j]).d
                    > 0 by {
                    assert(crate::rat::is_canon(self@[i][j]));
                }
            }
        }
    }

    /// Builds a matrix from a flat row-major buffer; fails with a
    /// dimension-mismatch error when the buffer length is not the square of
    /// the dimension.
    pub fn new(dim: usize, buf: Vec<Scalar>) -> (r: Result<Matrix, &'static str>)
        requires
            dim <= 0xffff,
        ensures
            r is Ok <==> buf@.len() == dim * dim,
            r matches Ok(m) ==> m@.len() == dim && (forall|i: int, j: int|
                0 <= i < dim && 0 <= j < dim ==> #[trigger] m@[i][j] == buf@[i * dim + j]@),
    {
        proof {
            assert(dim * dim <= 0xffff * 0xffff) by (nonlinear_arith)
                requires
                    dim <= 0xffff,
            ;
        }
        if buf.len() == dim * dim {
            let m = Matrix { dim, buf };
            proof {
                assert forall|i: int, j: int| 0 <= i < dim && 0 <= j < dim implies #[trigger] m@[i][j]
                    == m.buf@[i * dim + j]@ by {
                    assert(0 <= i * (dim as int) + j < dim * dim) by (nonlinear_arith)
                        requires
                            0 <= i < dim,
                            0 <= j < dim,
                    ;
                }
            }
            Ok(m)
        } else {
            Err("matrix buffer length does not match its dimension")
        }
    }

    /// One entry.
    pub fn get(&self, i: usize, j: usize) -> (r: Scalar)
        requires
            0 <= i < self@.len(),
            0 <= j < self@.len(),
        ensures
            r@ == self@[i as int][j as int],
    {
        proof {
            use_type_invariant(self);
            assert(0 <= i * self.dim + j < self.dim * self.dim) by (nonlinear_arith)
                requires
                    0 <= i < self.dim,
                    0 <= j < self.dim,
            ;
            assert(i * self.dim + j <= usize::MAX) by (nonlinear_arith)
                requires
                    i * self.dim + j < self.dim * self.dim,
                    self.dim <= 0xffff,
            ;
        }
        self.buf[i * self.dim + j]
    }

    /// The square matrix whose entries a caller-supplied function produces,
    /// row and column by row and column.
    pub fn from_fn<F: Fn(usize, usize) -> Scalar>(dim: usize, f: F) -> (r: Matrix)
        requires
            dim <= 0xffff,
            forall|i: usize, j: usize| i < dim && j < dim ==> #[trigger] f.requires((i, j)),
        ensures
            r@.len() == dim,
            forall|i: usize, j: usize|
                i < dim && j < dim ==> #[trigger] cell_from(f, r@[i as int][j as int], i, j),
    {
        let mut buf: Vec<Scalar> = Vec::new();
        proof {
            assert(dim * dim <= 0xffff * 0xffff) by (nonlinear_arith)
                requires
                    dim <= 0xffff,
            ;
        }
        let mut i: usize = 0;
        while i < dim
            invariant
                forall|a: usize, b: usize| a < dim && b < dim ==> #[trigger] f.requires((a, b)),
                i <= dim,
                dim <= 0xffff,
                buf@.len() == i * dim,
                forall|a: usize, b: usize|
                    a < i && b < dim ==> #[trigger] cell_from(
                        f,
                        buf@[rm_idx(a as int, b as int, dim as int)]@,
                        a,
                        b,
                    ),
            decreases dim - i,
        {
            let mut j: usize = 0;
            proof {
                assert((i + 1) * dim == i * dim + dim) by (nonlinear_arith);
            }
            while j < dim
                invariant
                    forall|a: usize, b: usize|
                        a < dim && b < dim ==> #[trigger] f.requires((a, b)),
                    i < dim,
                    j <= dim,
                    dim <= 0xffff,
                    buf@.len() == i * dim + j,
                    forall|a: usize, b: usize|
                        a < i && b < dim ==> #[trigger] cell_from(
                            f,
                            buf@[rm_idx(a as int, b as int, dim as int)]@,
                            a,
                            b,
                        ),
                    forall|b: usize|
                        b < j ==> #[trigger] cell_from(
                            f,
                            buf@[rm_idx(i as int, b as int, dim as int)]@,
                            i,
                            b,
                        ),
                decreases dim - j,
            {
                proof {
                    assert(i * dim + j < dim * dim && dim * dim <= 0xffff * 0xffff)
                        by (nonlinear_arith)
                        requires
                            i < dim,
                            j < dim,
                            dim <= 0xffff,
                    ;
                    assert forall|a: int, b: int| 0 <= a < i && 0 <= b < dim implies #[trigger] rm_idx(
                        a,
                        b,
                        dim as int,
                    ) < i * (dim as int) + j by {
                        lemma_index_mono(a, b, i as int, dim as int);
                    }
                }
                let ghost obuf = buf@;
                let entry = f(i, j);
                buf.push(entry);
                proof {
                    assert(buf@ == obuf.push(entry));
                    assert(rm_idx(i as int, j as int, dim as int) == i * dim + j);
                    assert(buf@[rm_idx(i as int, j as int, dim as int)] == entry);
                    assert(cell_from(f, entry@, i, j)) by {
                        assert(f.ensures((i, j), entry));
                    }
                    assert forall|b: usize| b < j + 1 implies #[trigger] cell_from(
                        f,
                        buf@[rm_idx(i as int, b as int, dim as int)]@,
                        i,
                        b,
                    ) by {
                        if b < j {
                            assert(rm_idx(i as int, b as int, dim as int) == i * dim + b);
                            assert(buf@[rm_idx(i as int, b as int, dim as int)] == obuf[rm_idx(
                                i as int,
                                b as int,
                                dim as int,
                            )]);
                        }
                    }
                    assert forall|a: usize, b: usize| a < i && b < dim implies #[trigger] cell_from(
                        f,
                        buf@[rm_idx(a as int, b as int, dim as int)]@,
                        a,
                        b,
                    ) by {
                        assert(rm_idx(a as int, b as int, dim as int) < i * (dim as int) + j);
                        assert(buf@[rm_idx(a as int, b as int, dim as int)] == obuf[rm_idx(
                            a as int,
                            b as int,
                            dim as int,
                        )]);
                    }
                }
                j = j + 1;
            }
            i = i + 1;
        }
        let m = Matrix { dim, buf };
        proof {
            assert forall|a: usize, b: usize| a < dim && b < dim implies #[trigger] cell_from(
                f,
                m@[a as int][b as int],
                a,
                b,
            ) by {
                assert(0 <= rm_idx(a as int, b as int, dim as int) < dim * dim)
                    by (nonlinear_arith)
                    requires
                        a < dim,
                        b < dim,
                        rm_idx(a as int, b as int, dim as int) == a * (dim as int) + b,
                ;
                assert(m@[a as int][b as int] == m.buf@[rm_idx(a as int, b as int, dim as int)]@);
            }
        }
        m
    }

    /// The square matrix with the given value along the diagonal.
    pub fn diagonal(dim: usize, v: Scalar) -> (r: Matrix)
        requires
            dim <= 0xffff,
        ensures
            r@.len() == dim,
            forall|i: int, j: int|
                0 <= i < dim && 0 <= j < dim ==> #[trigger] r@[i][j] == (if i == j {
                    v@
                } else {
                    rat_zero()
                }),
    {
        let zero = Scalar::zero();
        let mut buf: Vec<Scalar> = Vec::new();
        let ghost total = (dim * dim) as int;
        proof {
            assert(dim * dim <= 0xffff * 0xffff) by (nonlinear_arith)
                requires
                    dim <= 0xffff,
            ;
        }
        let mut i: usize = 0;
        while i < dim
            invariant
                zero@ == rat_zero(),
                i <= dim,
                dim <= 0xffff,
                buf@.len() == i * dim,
                forall|a: int, b: int|
                    0 <= a < i && 0 <= b < dim ==> buf@[#[trigger] rm_idx(a, b, dim as int)]@ == (
                    if a == b {
                        v@
                    } else {
                        rat_zero()
                    }),
            decreases dim - i,
        {
            let mut j: usize = 0;
            proof {
                assert((i + 1) * dim == i * dim + dim) by (nonlinear_arith);
            }
            while j < dim
                invariant
                    zero@ == rat_zero(),
                    i < dim,
                    j <= dim,
                    dim <= 0xffff,
                    buf@.len() == i * dim + j,
                    forall|a: int, b: int|
                        0 <= a < i && 0 <= b < dim ==> buf@[#[trigger] rm_idx(a, b, dim as int)]@ == (
                        if a == b {
                            v@
                        } else {
                            rat_zero()
                        }),
                    forall|b: int|
                        0 <= b < j ==> buf@[#[trigger] rm_idx(i as int, b, dim as int)]@ == (if i == b {
                            v@
                        } else {
                            rat_zero()
                        }),
                decreases dim - j,
            {
                proof {
                    assert(i * dim + j < dim * dim && dim * dim <= 0xffff * 0xffff)
                        by (nonlinear_arith)
                        requires
                            i < dim,
                            j < dim,
                            dim <= 0xffff,
                    ;
                }
                proof {
                    assert forall|a: int, b: int| 0 <= a < i && 0 <= b < dim implies #[trigger] rm_idx(
                        a,
                        b,
                        dim as int,
                    ) < i * (dim as int) + j by {
                        lemma_index_mono(a, b, i as int, dim as int);
                    }
                }
                let ghost obuf = buf@;
                let entry = if i == j {
                    v
                } else {
                    zero
                };
                buf.push(entry);
                proof {
                    assert(buf@ == obuf.push(entry));
                    assert(rm_idx(i as int, j as int, dim as int) == i * dim + j);
                    assert(buf@[rm_idx(i as int, j as int, dim as int)] == entry);
                    assert forall|b: int| 0 <= b < j + 1 implies buf@[#[trigger] rm_idx(
                        i as int,
                        b,
                        dim as int,
                    )]@ == (if i == b {
                        v@
                    } else {
                        rat_zero()
                    }) by {
                        if b < j {
                            assert(rm_idx(i as int, b, dim as int) == i * dim + b);
                            assert(buf@[rm_idx(i as int, b, dim as int)] == obuf[rm_idx(
                                i as int,
                                b,
                                dim as int,
                            )]);
                        }
                    }
                    assert forall|a: int, b: int| 0 <= a < i && 0 <= b < dim implies buf@[#[trigger] rm_idx(
                        a,
                        b,
                        dim as int,
                    )]@ == (if a == b {
                        v@
                    } else {
                        rat_zero()
                    }) by {
                        assert(rm_idx(a, b, dim as int) < i * (dim as int) + j);
                        assert(buf@[rm_idx(a, b, dim as int)] == obuf[rm_idx(a, b, dim as int)]);
                    }
                }
                j = j + 1;
            }
            i = i + 1;
        }
        let m = Matrix { dim, buf };
        proof {
            assert forall|a: int, b: int| 0 <= a < dim && 0 <= b < dim implies #[trigger] m@[a][b]
                == (if a == b {
                v@
            } else {
                rat_zero()
            }) by {
                assert(0 <= rm_idx(a, b, dim as int) < dim * dim) by (nonlinear_arith)
                    requires
                        0 <= a < dim,
                        0 <= b < dim,
                        rm_idx(a, b, dim as int) == a * (dim as int) + b,
                ;
            }
        }
        m
    }

    /// The identity matrix.
    pub fn identity(dim: usize) -> (r: Matrix)
        requires
            dim <= 0xffff,
        ensures
            r@ == id_seq(dim as int),
    {
        let m = Matrix::diagonal(dim, Scalar::one());
        proof {
            assert(m@ =~~= id_seq(dim as int));
        }
        m
    }

    /// The square matrix with the given values along the diagonal.
    pub fn from_diagonal(values: &Vec<Scalar>) -> (r: Matrix)
        requires
            values@.len() <= 0xffff,
        ensures
            r@.len() == values@.len(),
            forall|i: int, j: int|
                0 <= i < values@.len() && 0 <= j < values@.len() ==> #[trigger] r@[i][j] == (
                if i == j {
                    values@[i]@
                } else {
                    rat_zero()
                }),
    {
        let dim = values.len();
        let zero = Scalar::zero();
        let mut buf: Vec<Scalar> = Vec::new();
        let mut i: usize = 0;
        while i < dim
            invariant
                zero@ == rat_zero(),
                i <= dim,
                dim == values@.len(),
                dim <= 0xffff,
                buf@.len() == i * dim,
                forall|a: int, b: int|
                    0 <= a < i && 0 <= b < dim ==> buf@[#[trigger] rm_idx(a, b, dim as int)]@ == (
                    if a == b {
                        values@[a]@
                    } else {
                        rat_zero()
                    }),
            decreases dim - i,
        {
            let mut j: usize = 0;
            proof {
                assert((i + 1) * dim == i * dim + dim) by (nonlinear_arith);
            }
            while j < dim
                invariant
                    zero@ == rat_zero(),
                    i < dim,
                    j <= dim,
                    dim == values@.len(),
                    dim <= 0xffff,
                    buf@.len() == i * dim + j,
                    forall|a: int, b: int|
                        0 <= a < i && 0 <= b < dim ==> buf@[#[trigger] rm_idx(a, b, dim as int)]@ == (
                        if a == b {
                            values@[a]@
                        } else {
                            rat_zero()
                        }),
                    forall|b: int|
                        0 <= b < j ==> buf@[#[trigger] rm_idx(i as int, b, dim as int)]@ == (if i as int == b {
                            values@[i as int]@
                        } else {
                            rat_zero()
                        }),
                decreases dim - j,
            {
                proof {
                    assert(i * dim + j < dim * dim && dim * dim <= 0xffff * 0xffff)
                        by (nonlinear_arith)
                        requires
                            i < dim,
                            j < dim,
                            dim <= 0xffff,
                    ;
                }
                proof {
                    assert forall|a: int, b: int| 0 <= a < i && 0 <= b < dim implies #[trigger] rm_idx(
                        a,
                        b,
                        dim as int,
                    ) < i * (dim as int) + j by {
                        lemma_index_mono(a, b, i as int, dim as int);
                    }
                }
                let ghost obuf = buf@;
                let entry = if i == j {
                    values[i]
                } else {
                    zero
                };
                buf.push(entry);
                proof {
                    assert(buf@ == obuf.push(entry));
                    assert(rm_idx(i as int, j as int, dim as int) == i * dim + j);
                    assert(buf@[rm_idx(i as int, j as int, dim as int)] == entry);
                    assert forall|b: int| 0 <= b < j + 1 implies buf@[#[trigger] rm_idx(
                        i as int,
                        b,
                        dim as int,
                    )]@ == (if i as int == b {
                        values@[i as int]@
                    } else {
                        rat_zero()
                    }) by {
                        if b < j {
                            assert(rm_idx(i as int, b, dim as int) == i * dim + b);
                            assert(buf@[rm_idx(i as int, b, dim as int)] == obuf[rm_idx(
                                i as int,
                                b,
                                dim as int,
                            )]);
                        }
                    }
                    assert forall|a: int, b: int| 0 <= a < i && 0 <= b < dim implies buf@[#[trigger] rm_idx(
                        a,
                        b,
                        dim as int,
                    )]@ == (if a == b {
                        values@[a]@
                    } else {
                        rat_zero()
                    }) by {
                        assert(rm_idx(a, b, dim as int) < i * (dim as int) + j);
                        assert(buf@[rm_idx(a, b, dim as int)] == obuf[rm_idx(a, b, dim as int)]);
                    }
                }
                j = j + 1;
            }
            i = i + 1;
        }
        let m = Matrix { dim, buf };
        proof {
            assert forall|a: int, b: int| 0 <= a < dim && 0 <= b < dim implies #[trigger] m@[a][b]
                == (if a == b {
                values@[a]@
            } else {
                rat_zero()
            }) by {
                assert(0 <= rm_idx(a, b, dim as int) < dim * dim) by (nonlinear_arith)
                    requires
                        0 <= a < dim,
                        0 <= b < dim,
                        rm_idx(a, b, dim as int) == a * (dim as int) + b,
                ;
            }
        }
        m
    }
}


impl Matrix {
    /// The transpose: every entry moves across the main diagonal.
    pub fn transpose(&self) -> (r: Matrix)
        ensures
            r@.len() == self@.len(),
            forall|i: int, j: int|
                0 <= i < self@.len() && 0 <= j < self@.len() ==> #[trigger] r@[i][j]
                    == self@[j][i],
    {
        proof {
            use_type_invariant(self);
        }
        let dim = self.dim;
        let mut buf: Vec<Scalar> = Vec::new();
        let mut i: usize = 0;
        while i < dim
            invariant
                self@.len() == dim,
                self.inv(),
                dim == self.dim,
                i <= dim,
                dim <= 0xffff,
                buf@.len() == i * dim,
                forall|a: int, b: int|
                    0 <= a < i && 0 <= b < dim ==> buf@[#[trigger] rm_idx(a, b, dim as int)]@
                        == self@[b][a],
            decreases dim - i,
        {
            let mut j: usize = 0;
            proof {
                assert((i + 1) * dim == i * dim + dim) by (nonlinear_arith);
            }
            while j < dim
                invariant
                    self@.len() == dim,
                    self.inv(),
                    dim == self.dim,
                    i < dim,
                    j <= dim,
                    dim <= 0xffff,
                    buf@.len() == i * dim + j,
                    forall|a: int, b: int|
                        0 <= a < i && 0 <= b < dim ==> buf@[#[trigger] rm_idx(a, b, dim as int)]@
                            == self@[b][a],
                    forall|b: int|
                        0 <= b < j ==> buf@[#[trigger] rm_idx(i as int, b, dim as int)]@
                            == self@[b][i as int],
                decreases dim - j,
            {
                proof {
                    assert(i * dim + j < dim * dim && dim * dim <= 0xffff * 0xffff)
                        by (nonlinear_arith)
                        requires
                            i < dim,
                            j < dim,
                            dim <= 0xffff,
                    ;
                    assert forall|a: int, b: int| 0 <= a < i && 0 <= b < dim implies #[trigger] rm_idx(
                        a,
                        b,
                        dim as int,
                    ) < i * (dim as int) + j by {
                        lemma_index_mono(a, b, i as int, dim as int);
                    }
                }
                let ghost obuf = buf@;
                let entry = self.get(j, i);
                buf.push(entry);
                proof {
                    assert(buf@ == obuf.push(entry));
                    assert(rm_idx(i as int, j as int, dim as int) == i * dim + j);
                    assert(buf@[rm_idx(i as int, j as int, dim as int)] == entry);
                    assert forall|b: int| 0 <= b < j + 1 implies buf@[#[trigger] rm_idx(
                        i as int,
                        b,
                        dim as int,
                    )]@ == self@[b][i as int] by {
                        if b < j {
                            assert(rm_idx(i as int, b, dim as int) == i * dim + b);
                            assert(buf@[rm_idx(i as int, b, dim as int)] == obuf[rm_idx(
                                i as int,
                                b,
                                dim as int,
                            )]);
                        }
                    }
                    assert forall|a: int, b: int| 0 <= a < i && 0 <= b < dim implies buf@[#[trigger] rm_idx(
                        a,
                        b,
                        dim as int,
                    )]@ == self@[b][a] by {
                        assert(rm_idx(a, b, dim as int) < i * (dim as int) + j);
                        assert(buf@[rm_idx(a, b, dim as int)] == obuf[rm_idx(a, b, dim as int)]);
                    }
                }
                j = j + 1;
            }
            i = i + 1;
        }
        let m = Matrix { dim, buf };
        proof {
            assert forall|a: int, b: int| 0 <= a < dim && 0 <= b < dim implies #[trigger] m@[a][b]
                == self@[b][a] by {
                assert(0 <= rm_idx(a, b, dim as int) < dim * dim) by (nonlinear_arith)
                    requires
                        0 <= a < dim,
                        0 <= b < dim,
                        rm_idx(a, b, dim as int) == a * (dim as int) + b,
                ;
            }
        }
        m
    }

    /// Elementwise sum of two matrices of the same dimension.
    pub fn add(&self, rhs: &Matrix) -> (r: Matrix)
        requires
            self@.len() == rhs@.len(),
            forall|i: int, j: int|
                0 <= i < self@.len() && 0 <= j < self@.len() ==> add_ok(
                    #[trigger] self@[i][j],
                    #[trigger] rhs@[i][j],
                ),
        ensures
            r@.len() == self@.len(),
            forall|i: int, j: int|
                0 <= i < self@.len() && 0 <= j < self@.len() ==> #[trigger] r@[i][j] == radd(
                    self@[i][j],
                    rhs@[i][j],
                ),
    {
        proof {
            use_type_invariant(self);
            use_type_invariant(rhs);
        }
        let dim = self.dim;
        let mut buf: Vec<Scalar> = Vec::new();
        let mut i: usize = 0;
        while i < dim
            invariant
                self@.len() == dim,
                rhs@.len() == dim,
                self.inv(),
                rhs.inv(),
                dim == self.dim,
                forall|a: int, b: int|
                    0 <= a < dim && 0 <= b < dim ==> add_ok(
                        #[trigger] self@[a][b],
                        #[trigger] rhs@[a][b],
                    ),
                i <= dim,
                dim <= 0xffff,
                buf@.len() == i * dim,
                forall|a: int, b: int|
                    0 <= a < i && 0 <= b < dim ==> buf@[#[trigger] rm_idx(a, b, dim as int)]@
                        == radd(self@[a][b], rhs@[a][b]),
            decreases dim - i,
        {
            let mut j: usize = 0;
            proof {
                assert((i + 1) * dim == i * dim + dim) by (nonlinear_arith);
            }
            while j < dim
                invariant
                    self@.len() == dim,
                    rhs@.len() == dim,
                    self.inv(),
                    rhs.inv(),
                    dim == self.dim,
                    forall|a: int, b: int|
                        0 <= a < dim && 0 <= b < dim ==> add_ok(
                            #[trigger] self@[a][b],
                            #[trigger] rhs@[a][b],
                        ),
                    i < dim,
                    j <= dim,
                    dim <= 0xffff,
                    buf@.len() == i * dim + j,
                    forall|a: int, b: int|
                        0 <= a < i && 0 <= b < dim ==> buf@[#[trigger] rm_idx(a, b, dim as int)]@
                            == radd(self@[a][b], rhs@[a][b]),
                    forall|b: int|
                        0 <= b < j ==> buf@[#[trigger] rm_idx(i as int, b, dim as int)]@ == radd(
                            self@[i as int][b],
                            rhs@[i as int][b],
                        ),
                decreases dim - j,
            {
                proof {
                    assert(i * dim + j < dim * dim && dim * dim <= 0xffff * 0xffff)
                        by (nonlinear_arith)
                        requires
                            i < dim,
                            j < dim,
                            dim <= 0xffff,
                    ;
                    assert forall|a: int, b: int| 0 <= a < i && 0 <= b < dim implies #[trigger] rm_idx(
                        a,
                        b,
                        dim as int,
                    ) < i * (dim as int) + j by {
                        lemma_index_mono(a, b, i as int, dim as int);
                    }
                }
                let ghost obuf = buf@;
                let entry = self.get(i, j).add(rhs.get(i, j));
                buf.push(entry);
                proof {
                    assert(buf@ == obuf.push(entry));
                    assert(rm_idx(i as int, j as int, dim as int) == i * dim + j);
                    assert(buf@[rm_idx(i as int, j as int, dim as int)] == entry);
                    assert forall|b: int| 0 <= b < j + 1 implies buf@[#[trigger] rm_idx(
                        i as int,
                        b,
                        dim as int,
                    )]@ == radd(self@[i as int][b], rhs@[i as int][b]) by {
                        if b < j {
                            assert(rm_idx(i as int, b, dim as int) == i * dim + b);
                            assert(buf@[rm_idx(i as int, b, dim as int)] == obuf[rm_idx(
                                i as int,
                                b,
                                dim as int,
                            )]);
                        }
                    }
                    assert forall|a: int, b: int| 0 <= a < i && 0 <= b < dim implies buf@[#[trigger] rm_idx(
                        a,
                        b,
                        dim as int,
                    )]@ == radd(self@[a][b], rhs@[a][b]) by {
                        assert(rm_idx(a, b, dim as int) < i * (dim as int) + j);
                        assert(buf@[rm_idx(a, b, dim as int)] == obuf[rm_idx(a, b, dim as int)]);
                    }
                }
                j = j + 1;
            }
            i = i + 1;
        }
        let m = Matrix { dim, buf };
        proof {
            assert forall|a: int, b: int| 0 <= a < dim && 0 <= b < dim implies #[trigger] m@[a][b]
                == radd(self@[a][b], rhs@[a][b]) by {
                assert(0 <= rm_idx(a, b, dim as int) < dim * dim) by (nonlinear_arith)
                    requires
                        0 <= a < dim,
                        0 <= b < dim,
                        rm_idx(a, b, dim as int) == a * (dim as int) + b,
                ;
            }
        }
        m
    }

    /// Elementwise difference of two matrices of the same dimension.
    pub fn sub(&self, rhs: &Matrix) -> (r: Matrix)
        requires
            self@.len() == rhs@.len(),
            forall|i: int, j: int|
                0 <= i < self@.len() && 0 <= j < self@.len() ==> sub_ok(
                    #[trigger] self@[i][j],
                    #[trigger] rhs@[i][j],
                ),
        ensures
            r@.len() == self@.len(),
            forall|i: int, j: int|
                0 <= i < self@.len() && 0 <= j < self@.len() ==> #[trigger] r@[i][j] == rsub(
                    self@[i][j],
                    rhs@[i][j],
                ),
    {
        proof {
            use_type_invariant(self);
            use_type_invariant(rhs);
        }
        let dim = self.dim;
        let mut buf: Vec<Scalar> = Vec::new();
        let mut i: usize = 0;
        while i < dim
            invariant
                self@.len() == dim,
                rhs@.len() == dim,
                self.inv(),
                rhs.inv(),
                dim == self.dim,
                forall|a: int, b: int|
                    0 <= a < dim && 0 <= b < dim ==> sub_ok(
                        #[trigger] self@[a][b],
                        #[trigger] rhs@[a][b],
                    ),
                i <= dim,
                dim <= 0xffff,
                buf@.len() == i * dim,
                forall|a: int, b: int|
                    0 <= a < i && 0 <= b < dim ==> buf@[#[trigger] rm_idx(a, b, dim as int)]@
                        == rsub(self@[a][b], rhs@[a][b]),
            decreases dim - i,
        {
            let mut j: usize = 0;
            proof {
                assert((i + 1) * dim == i * dim + dim) by (nonlinear_arith);
            }
            while j < dim
                invariant
                    self@.len() == dim,
                    rhs@.len() == dim,
                    self.inv(),
                    rhs.inv(),
                    dim == self.dim,
                    forall|a: int, b: int|
                        0 <= a < dim && 0 <= b < dim ==> sub_ok(
                            #[trigger] self@[a][b],
                            #[trigger] rhs@[a][b],
                        ),
                    i < dim,
                    j <= dim,
                    dim <= 0xffff,
                    buf@.len() == i * dim + j,
                    forall|a: int, b: int|
                        0 <= a < i && 0 <= b < dim ==> buf@[#[trigger] rm_idx(a, b, dim as int)]@
                            == rsub(self@[a][b], rhs@[a][b]),
                    forall|b: int|
                        0 <= b < j ==> buf@[#[trigger] rm_idx(i as int, b, dim as int)]@ == rsub(
                            self@[i as int][b],
                            rhs@[i as int][b],
                        ),
                decreases dim - j,
            {
                proof {
                    assert(i * dim + j < dim * dim && dim * dim <= 0xffff * 0xffff)
                        by (nonlinear_arith)
                        requires
                            i < dim,
                            j < dim,
                            dim <= 0xffff,
                    ;
                    assert forall|a: int, b: int| 0 <= a < i && 0 <= b < dim implies #[trigger] rm_idx(
                        a,
                        b,
                        dim as int,
                    ) < i * (dim as int) + j by {
                        lemma_index_mono(a, b, i as int, dim as int);
                    }
                }
                let ghost obuf = buf@;
                let entry = self.get(i, j).sub(rhs.get(i, j));
                buf.push(entry);
                proof {
                    assert(buf@ == obuf.push(entry));
                    assert(rm_idx(i as int, j as int, dim as int) == i * dim + j);
                    assert(buf@[rm_idx(i as int, j as int, dim as int)] == entry);
                    assert forall|b: int| 0 <= b < j + 1 implies buf@[#[trigger] rm_idx(
                        i as int,
                        b,
                        dim as int,
                    )]@ == rsub(self@[i as int][b], rhs@[i as int][b]) by {
                        if b < j {
                            assert(rm_idx(i as int, b, dim as int) == i * dim + b);
                            assert(buf@[rm_idx(i as int, b, dim as int)] == obuf[rm_idx(
                                i as int,
                                b,
                                dim as int,
                            )]);
                        }
                    }
                    assert forall|a: int, b: int| 0 <= a < i && 0 <= b < dim implies buf@[#[trigger] rm_idx(
                        a,
                        b,
                        dim as int,
                    )]@ == rsub(self@[a][b], rhs@[a][b]) by {
                        assert(rm_idx(a, b, dim as int) < i * (dim as int) + j);
                        assert(buf@[rm_idx(a, b, dim as int)] == obuf[rm_idx(a, b, dim as int)]);
                    }
                }
                j = j + 1;
            }
            i = i + 1;
        }
        let m = Matrix { dim, buf };
        proof {
            assert forall|a: int, b: int| 0 <= a < dim && 0 <= b < dim implies #[trigger] m@[a][b]
                == rsub(self@[a][b], rhs@[a][b]) by {
                assert(0 <= rm_idx(a, b, dim as int) < dim * dim) by (nonlinear_arith)
                    requires
                        0 <= a < dim,
                        0 <= b < dim,
                        rm_idx(a, b, dim as int) == a * (dim as int) + b,
                ;
            }
        }
        m
    }

    /// The matrix product: entry `i, j` is the dot product of row `i` of
    /// `self` with column `j` of `rhs`.
    pub fn mul(&self, rhs: &Matrix) -> (r: Matrix)
        requires
            self@.len() == rhs@.len(),
            m_mul_ok(self@, rhs@),
        ensures
            r@.len() == self@.len(),
            forall|i: int, j: int|
                0 <= i < self@.len() && 0 <= j < self@.len() ==> #[trigger] r@[i][j] == row_col(
                    self@,
                    rhs@,
                    i,
                    j,
                    self@.len() as int,
                ),
    {
        proof {
            use_type_invariant(self);
            use_type_invariant(rhs);
        }
        let dim = self.dim;
        let mut buf: Vec<Scalar> = Vec::new();
        let mut i: usize = 0;
        while i < dim
            invariant
                self@.len() == dim,
                rhs@.len() == dim,
                self.inv(),
                rhs.inv(),
                dim == self.dim,
                m_mul_ok(self@, rhs@),
                i <= dim,
                dim <= 0xffff,
                buf@.len() == i * dim,
                forall|a: int, b: int|
                    0 <= a < i && 0 <= b < dim ==> buf@[#[trigger] rm_idx(a, b, dim as int)]@
                        == row_col(self@, rhs@, a, b, dim as int),
            decreases dim - i,
        {
            let mut j: usize = 0;
            proof {
                assert((i + 1) * dim == i * dim + dim) by (nonlinear_arith);
            }
            while j < dim
                invariant
                    self@.len() == dim,
                    rhs@.len() == dim,
                    self.inv(),
                    rhs.inv(),
                    dim == self.dim,
                    m_mul_ok(self@, rhs@),
                    i < dim,
                    j <= dim,
                    dim <= 0xffff,
                    buf@.len() == i * dim + j,
                    forall|a: int, b: int|
                        0 <= a < i && 0 <= b < dim ==> buf@[#[trigger] rm_idx(a, b, dim as int)]@
                            == row_col(self@, rhs@, a, b, dim as int),
                    forall|b: int|
                        0 <= b < j ==> buf@[#[trigger] rm_idx(i as int, b, dim as int)]@
                            == row_col(self@, rhs@, i as int, b, dim as int),
                decreases dim - j,
            {
                proof {
                    assert(i * dim + j < dim * dim && dim * dim <= 0xffff * 0xffff)
                        by (nonlinear_arith)
                        requires
                            i < dim,
                            j < dim,
                            dim <= 0xffff,
                    ;
                    assert forall|a: int, b: int| 0 <= a < i && 0 <= b < dim implies #[trigger] rm_idx(
                        a,
                        b,
                        dim as int,
                    ) < i * (dim as int) + j by {
                        lemma_index_mono(a, b, i as int, dim as int);
                    }
                }
                let ghost obuf = buf@;
                let entry = self.row_dot(rhs, i, j);
                buf.push(entry);
                proof {
                    assert(buf@ == obuf.push(entry));
                    assert(rm_idx(i as int, j as int, dim as int) == i * dim + j);
                    assert(buf@[rm_idx(i as int, j as int, dim as int)] == entry);
                    assert forall|b: int| 0 <= b < j + 1 implies buf@[#[trigger] rm_idx(
                        i as int,
                        b,
                        dim as int,
                    )]@ == row_col(self@, rhs@, i as int, b, dim as int) by {
                        if b < j {
                            assert(rm_idx(i as int, b, dim as int) == i * dim + b);
                            assert(buf@[rm_idx(i as int, b, dim as int)] == obuf[rm_idx(
                                i as int,
                                b,
                                dim as int,
                            )]);
                        }
                    }
                    assert forall|a: int, b: int| 0 <= a < i && 0 <= b < dim implies buf@[#[trigger] rm_idx(
                        a,
                        b,
                        dim as int,
                    )]@ == row_col(self@, rhs@, a, b, dim as int) by {
                        assert(rm_idx(a, b, dim as int) < i * (dim as int) + j);
                        assert(buf@[rm_idx(a, b, dim as int)] == obuf[rm_idx(a, b, dim as int)]);
                    }
                }
                j = j + 1;
            }
            i = i + 1;
        }
        let m = Matrix { dim, buf };
        proof {
            assert forall|a: int, b: int| 0 <= a < dim && 0 <= b < dim implies #[trigger] m@[a][b]
                == row_col(self@, rhs@, a, b, dim as int) by {
                assert(0 <= rm_idx(a, b, dim as int) < dim * dim) by (nonlinear_arith)
                    requires
                        0 <= a < dim,
                        0 <= b < dim,
                        rm_idx(a, b, dim as int) == a * (dim as int) + b,
                ;
            }
        }
        m
    }

    /// One entry of the product: the running dot of a row against a column.
    fn row_dot(&self, rhs: &Matrix, i: usize, j: usize) -> (r: Scalar)
        requires
            self@.len() == rhs@.len(),
            i < self@.len(),
            j < self@.len(),
            row_col_ok(self@, rhs@, i as int, j as int, self@.len() as int),
        ensures
            r@ == row_col(self@, rhs@, i as int, j as int, self@.len() as int),
    {
        proof {
            use_type_invariant(self);
            use_type_invariant(rhs);
        }
        let dim = self.dim;
        let mut acc = Scalar::zero();
        let mut k: usize = 0;
        while k < dim
            invariant
                self@.len() == dim,
                rhs@.len() == dim,
                self.inv(),
                rhs.inv(),
                dim == self.dim,
                i < dim,
                j < dim,
                k <= dim,
                row_col_ok(self@, rhs@, i as int, j as int, dim as int),
                acc@ == row_col(self@, rhs@, i as int, j as int, k as int),
            decreases dim - k,
        {
            proof {
                lemma_row_col_ok_prefix(self@, rhs@, i as int, j as int, dim as int, k as int + 1);
            }
            let term = self.get(i, k).mul(rhs.get(k, j));
            acc = acc.add(term);
            k = k + 1;
        }
        acc
    }

    /// Applies the matrix to a homogeneous tuple; the matrix must be
    /// four-by-four, the size of the homogeneous space.
    pub fn mul_tuple(&self, t: &Tuple4) -> (r: Tuple4)
        requires
            self@.len() == 4,
            row_app_ok(self@, t@, 0),
            row_app_ok(self@, t@, 1),
            row_app_ok(self@, t@, 2),
            row_app_ok(self@, t@, 3),
        ensures
            r@.x == row_app(self@, t@, 0),
            r@.y == row_app(self@, t@, 1),
            r@.z == row_app(self@, t@, 2),
            r@.w == row_app(self@, t@, 3),
    {
        let x = self.apply_row(t, 0);
        let y = self.apply_row(t, 1);
        let z = self.apply_row(t, 2);
        let w = self.apply_row(t, 3);
        Tuple4 { x, y, z, w }
    }

    /// One row of the matrix applied to a tuple.
    fn apply_row(&self, t: &Tuple4, i: usize) -> (r: Scalar)
        requires
            self@.len() == 4,
            i < 4,
            row_app_ok(self@, t@, i as int),
        ensures
            r@ == row_app(self@, t@, i as int),
    {
        self.get(i, 0).mul(t.x).add(self.get(i, 1).mul(t.y)).add(self.get(i, 2).mul(t.z)).add(
            self.get(i, 3).mul(t.w),
        )
    }
}

/// A prefix of a within-bounds dot product is itself within bounds.
proof fn lemma_row_col_ok_prefix(
    a: Seq<Seq<Rat>>,
    b: Seq<Seq<Rat>>,
    i: int,
    j: int,
    k: int,
    kk: int,
)
    requires
        row_col_ok(a, b, i, j, k),
        0 <= kk <= k,
    ensures
        row_col_ok(a, b, i, j, kk),
    decreases k,
{
    if kk < k {
        lemma_row_col_ok_prefix(a, b, i, j, k - 1, kk);
    }
}


impl Matrix {
    /// The submatrix with one row and one column removed.
    pub fn submatrix(&self, row: usize, col: usize) -> (r: Matrix)
        requires
            1 <= self@.len(),
            row < self@.len(),
            col < self@.len(),
        ensures
            r@ == sub_seq(self@, row as int, col as int),
    {
        proof {
            use_type_invariant(self);
        }
        let dim = self.dim;
        let sdim = dim - 1;
        let mut buf: Vec<Scalar> = Vec::new();
        let mut i: usize = 0;
        while i < sdim
            invariant
                self@.len() == dim,
                self.inv(),
                dim == self.dim,
                sdim == dim - 1,
                row < dim,
                col < dim,
                i <= sdim,
                dim <= 0xffff,
                buf@.len() == i * sdim,
                forall|a: int, b: int|
                    0 <= a < i && 0 <= b < sdim ==> buf@[#[trigger] rm_idx(a, b, sdim as int)]@
                        == sub_seq(self@, row as int, col as int)[a][b],
            decreases sdim - i,
        {
            let mut j: usize = 0;
            proof {
                assert((i + 1) * sdim == i * sdim + sdim) by (nonlinear_arith);
            }
            while j < sdim
                invariant
                    self@.len() == dim,
                    self.inv(),
                    dim == self.dim,
                    sdim == dim - 1,
                    row < dim,
                    col < dim,
                    i < sdim,
                    j <= sdim,
                    dim <= 0xffff,
                    buf@.len() == i * sdim + j,
                    forall|a: int, b: int|
                        0 <= a < i && 0 <= b < sdim ==> buf@[#[trigger] rm_idx(a, b, sdim as int)]@
                            == sub_seq(self@, row as int, col as int)[a][b],
                    forall|b: int|
                        0 <= b < j ==> buf@[#[trigger] rm_idx(i as int, b, sdim as int)]@
                            == sub_seq(self@, row as int, col as int)[i as int][b],
                decreases sdim - j,
            {
                proof {
                    assert(i * sdim + j < sdim * sdim && sdim * sdim <= 0xffff * 0xffff)
                        by (nonlinear_arith)
                        requires
                            i < sdim,
                            j < sdim,
                            sdim <= 0xffff,
                    ;
                    assert forall|a: int, b: int| 0 <= a < i && 0 <= b < sdim implies #[trigger] rm_idx(
                        a,
                        b,
                        sdim as int,
                    ) < i * (sdim as int) + j by {
                        lemma_index_mono(a, b, i as int, sdim as int);
                    }
                }
                let ghost obuf = buf@;
                let si = if i < row {
                    i
                } else {
                    i + 1
                };
                let sj = if j < col {
                    j
                } else {
                    j + 1
                };
                let entry = self.get(si, sj);
                buf.push(entry);
                proof {
                    assert(buf@ == obuf.push(entry));
                    assert(rm_idx(i as int, j as int, sdim as int) == i * sdim + j);
                    assert(buf@[rm_idx(i as int, j as int, sdim as int)] == entry);
                    assert(entry@ == sub_seq(self@, row as int, col as int)[i as int][j as int]);
                    assert forall|b: int| 0 <= b < j + 1 implies buf@[#[trigger] rm_idx(
                        i as int,
                        b,
                        sdim as int,
                    )]@ == sub_seq(self@, row as int, col as int)[i as int][b] by {
                        if b < j {
                            assert(rm_idx(i as int, b, sdim as int) == i * sdim + b);
                            assert(buf@[rm_idx(i as int, b, sdim as int)] == obuf[rm_idx(
                                i as int,
                                b,
                                sdim as int,
                            )]);
                        }
                    }
                    assert forall|a: int, b: int| 0 <= a < i && 0 <= b < sdim implies buf@[#[trigger] rm_idx(
                        a,
                        b,
                        sdim as int,
                    )]@ == sub_seq(self@, row as int, col as int)[a][b] by {
                        assert(rm_idx(a, b, sdim as int) < i * (sdim as int) + j);
                        assert(buf@[rm_idx(a, b, sdim as int)] == obuf[rm_idx(a, b, sdim as int)]);
                    }
                }
                j = j + 1;
            }
            i = i + 1;
        }
        let m = Matrix { dim: sdim, buf };
        proof {
            assert forall|a: int, b: int| 0 <= a < sdim && 0 <= b < sdim implies #[trigger] m@[a][b]
                == sub_seq(self@, row as int, col as int)[a][b] by {
                assert(0 <= rm_idx(a, b, sdim as int) < sdim * sdim) by (nonlinear_arith)
                    requires
                        0 <= a < sdim,
                        0 <= b < sdim,
                        rm_idx(a, b, sdim as int) == a * (sdim as int) + b,
                ;
            }
            assert(m@ =~~= sub_seq(self@, row as int, col as int));
        }
        m
    }

    /// The determinant, by recursive Laplace expansion along the first row.
    pub fn determinant(&self) -> (r: Scalar)
        requires
            1 <= self@.len(),
            det_ok(self@),
        ensures
            r@ == det_seq(self@),
        decreases self@.len(),
    {
        proof {
            use_type_invariant(self);
        }
        if self.dim == 1 {
            self.get(0, 0)
        } else if self.dim == 2 {
            let a = self.get(0, 0);
            let b = self.get(0, 1);
            let c = self.get(1, 0);
            let d = self.get(1, 1);
            a.mul(d).sub(b.mul(c))
        } else {
            let dim = self.dim;
            let mut acc = Scalar::zero();
            let mut col: usize = 0;
            proof {
                lemma_laplace_ok_prefix(self@, dim as int, 0);
            }
            while col < dim
                invariant
                    self@.len() == dim,
                    self.inv(),
                    dim == self.dim,
                    3 <= dim,
                    col <= dim,
                    laplace_ok(self@, dim as int),
                    acc@ == laplace(self@, col as int),
                decreases dim - col,
            {
                proof {
                    lemma_laplace_ok_prefix(self@, dim as int, col as int + 1);
                }
                let cf = self.cofactor(0, col);
                acc = acc.add(self.get(0, col).mul(cf));
                col = col + 1;
            }
            acc
        }
    }

    /// The minor: the determinant of the submatrix.
    pub fn minor(&self, row: usize, col: usize) -> (r: Scalar)
        requires
            2 <= self@.len(),
            row < self@.len(),
            col < self@.len(),
            cof_ok(self@, row as int, col as int),
        ensures
            r@ == det_seq(sub_seq(self@, row as int, col as int)),
        decreases self@.len(), 1int,
    {
        let sub = self.submatrix(row, col);
        sub.determinant()
    }

    /// The cofactor: the minor, negated on the odd chessboard squares.
    pub fn cofactor(&self, row: usize, col: usize) -> (r: Scalar)
        requires
            2 <= self@.len(),
            row < self@.len(),
            col < self@.len(),
            cof_ok(self@, row as int, col as int),
        ensures
            r@ == cof_seq(self@, row as int, col as int),
        decreases self@.len(), 2int,
    {
        proof {
            use_type_invariant(self);
        }
        let m = self.minor(row, col);
        if (row + col) % 2 == 0 {
            m
        } else {
            m.neg()
        }
    }

    /// Whether the matrix has an inverse: the determinant is not
    /// approximately zero at the tight tier.
    pub fn invertible(&self) -> (r: bool)
        requires
            1 <= self@.len(),
            det_ok(self@),
        ensures
            r == !crate::epsilon::approx_at_spec(
                det_seq(self@),
                rat_zero(),
                EpsilonTier::Tight,
            ),
    {
        let d = self.determinant();
        !d.approx_eq_at(Scalar::zero(), EpsilonTier::Tight)
    }

    /// The inverse by the adjugate: entry `col, row` of the result is the
    /// cofactor at `row, col` over the determinant.  Absent exactly when the
    /// determinant is approximately zero at the tight tier.
    pub fn inverse(&self) -> (r: Option<Matrix>)
        requires
            2 <= self@.len(),
            det_ok(self@),
            !crate::epsilon::approx_at_spec(det_seq(self@), rat_zero(), EpsilonTier::Tight)
                ==> m_inverse_ok(self@),
        ensures
            r is None <==> crate::epsilon::approx_at_spec(
                det_seq(self@),
                rat_zero(),
                EpsilonTier::Tight,
            ),
            r matches Some(m) ==> m@.len() == self@.len() && (forall|i: int, j: int|
                0 <= i < self@.len() && 0 <= j < self@.len() ==> #[trigger] m@[i][j] == rdiv(
                    cof_seq(self@, j, i),
                    det_seq(self@),
                )),
    {
        proof {
            use_type_invariant(self);
        }
        let det = self.determinant();
        let zero = Scalar::zero();
        if det.approx_eq_at(zero, EpsilonTier::Tight) {
            return None;
        }
        proof {
            assert(m_inverse_ok(self@));
            assert(det@.n != 0) by (nonlinear_arith)
                requires
                    !crate::rat::rat_eq(det@, rat_zero()),
                    det@ == det_seq(self@),
            ;
        }
        let dim = self.dim;
        let mut buf: Vec<Scalar> = Vec::new();
        let mut i: usize = 0;
        while i < dim
            invariant
                self@.len() == dim,
                self.inv(),
                dim == self.dim,
                2 <= dim,
                det@ == det_seq(self@),
                det@.n != 0,
                det_ok(self@),
                m_inverse_ok(self@),
                i <= dim,
                dim <= 0xffff,
                buf@.len() == i * dim,
                forall|a: int, b: int|
                    0 <= a < i && 0 <= b < dim ==> buf@[#[trigger] rm_idx(a, b, dim as int)]@
                        == rdiv(cof_seq(self@, b, a), det_seq(self@)),
            decreases dim - i,
        {
            let mut j: usize = 0;
            proof {
                assert((i + 1) * dim == i * dim + dim) by (nonlinear_arith);
            }
            while j < dim
                invariant
                    self@.len() == dim,
                    self.inv(),
                    dim == self.dim,
                    2 <= dim,
                    det@ == det_seq(self@),
                    det@.n != 0,
                    det_ok(self@),
                    m_inverse_ok(self@),
                    i < dim,
                    j <= dim,
                    dim <= 0xffff,
                    buf@.len() == i * dim + j,
                    forall|a: int, b: int|
                        0 <= a < i && 0 <= b < dim ==> buf@[#[trigger] rm_idx(a, b, dim as int)]@
                            == rdiv(cof_seq(self@, b, a), det_seq(self@)),
                    forall|b: int|
                        0 <= b < j ==> buf@[#[trigger] rm_idx(i as int, b, dim as int)]@ == rdiv(
                            cof_seq(self@, b, i as int),
                            det_seq(self@),
                        ),
                decreases dim - j,
            {
                proof {
                    assert(i * dim + j < dim * dim && dim * dim <= 0xffff * 0xffff)
                        by (nonlinear_arith)
                        requires
                            i < dim,
                            j < dim,
                            dim <= 0xffff,
                    ;
                    assert forall|a: int, b: int| 0 <= a < i && 0 <= b < dim implies #[trigger] rm_idx(
                        a,
                        b,
                        dim as int,
                    ) < i * (dim as int) + j by {
                        lemma_index_mono(a, b, i as int, dim as int);
                    }
                }
                proof {
                    assert(cof_ok(self@, j as int, i as int) && div_ok(
                        cof_seq(self@, j as int, i as int),
                        det_seq(self@),
                    ));
                }
                let ghost obuf = buf@;
                let entry = self.cofactor(j, i).div(det);
                buf.push(entry);
                proof {
                    assert(buf@ == obuf.push(entry));
                    assert(rm_idx(i as int, j as int, dim as int) == i * dim + j);
                    assert(buf@[rm_idx(i as int, j as int, dim as int)] == entry);
                    assert forall|b: int| 0 <= b < j + 1 implies buf@[#[trigger] rm_idx(
                        i as int,
                        b,
                        dim as int,
                    )]@ == rdiv(cof_seq(self@, b, i as int), det_seq(self@)) by {
                        if b < j {
                            assert(rm_idx(i as int, b, dim as int) == i * dim + b);
                            assert(buf@[rm_idx(i as int, b, dim as int)] == obuf[rm_idx(
                                i as int,
                                b,
                                dim as int,
                            )]);
                        }
                    }
                    assert forall|a: int, b: int| 0 <= a < i && 0 <= b < dim implies buf@[#[trigger] rm_idx(
                        a,
                        b,
                        dim as int,
                    )]@ == rdiv(cof_seq(self@, b, a), det_seq(self@)) by {
                        assert(rm_idx(a, b, dim as int) < i * (dim as int) + j);
                        assert(buf@[rm_idx(a, b, dim as int)] == obuf[rm_idx(a, b, dim as int)]);
                    }
                }
                j = j + 1;
            }
            i = i + 1;
        }
        let m = Matrix { dim, buf };
        proof {
            assert forall|a: int, b: int| 0 <= a < dim && 0 <= b < dim implies #[trigger] m@[a][b]
                == rdiv(cof_seq(self@, b, a), det_seq(self@)) by {
                assert(0 <= rm_idx(a, b, dim as int) < dim * dim) by (nonlinear_arith)
                    requires
                        0 <= a < dim,
                        0 <= b < dim,
                        rm_idx(a, b, dim as int) == a * (dim as int) + b,
                ;
            }
        }
        Some(m)
    }
}

/// A prefix of a within-bounds Laplace expansion is itself within bounds.
proof fn lemma_laplace_ok_prefix(m: Seq<Seq<Rat>>, k: int, kk: int)
    requires
        laplace_ok(m, k),
        0 <= kk <= k,
    ensures
        laplace_ok(m, kk),
    decreases k,
{
    if kk < k {
        lemma_laplace_ok_prefix(m, k - 1, kk);
    }
}

impl PartialEq for Matrix {
    /// Tolerant equality at the standard tier, entry by entry; matrices of
    /// different dimensions never compare equal.
    fn eq(&self, other: &Matrix) -> (r: bool) {
        proof {
            use_type_invariant(self);
            use_type_invariant(other);
        }
        if self.dim != other.dim {
            return false;
        }
        let dim = self.dim;
        let mut i: usize = 0;
        while i < dim
            invariant
                self@.len() == dim,
                other@.len() == dim,
                self.inv(),
                other.inv(),
                dim == self.dim,
                i <= dim,
                forall|a: int, b: int|
                    0 <= a < i && 0 <= b < dim ==> approx_at_spec(
                        #[trigger] self@[a][b],
                        #[trigger] other@[a][b],
                        EpsilonTier::Standard,
                    ),
            decreases dim - i,
        {
            let mut j: usize = 0;
            while j < dim
                invariant
                    self@.len() == dim,
                    other@.len() == dim,
                    self.inv(),
                    other.inv(),
                    dim == self.dim,
                    i < dim,
                    j <= dim,
                    forall|a: int, b: int|
                        0 <= a < i && 0 <= b < dim ==> approx_at_spec(
                            #[trigger] self@[a][b],
                            #[trigger] other@[a][b],
                            EpsilonTier::Standard,
                        ),
                    forall|b: int|
                        0 <= b < j ==> approx_at_spec(
                            #[trigger] self@[i as int][b],
                            other@[i as int][b],
                            EpsilonTier::Standard,
                        ),
                decreases dim - j,
            {
                if !self.get(i, j).approx_eq(other.get(i, j)) {
                    return false;
                }
                j = j + 1;
            }
            i = i + 1;
        }
        true
    }
}

impl vstd::std_specs::cmp::PartialEqSpecImpl for Matrix {
    open spec fn obeys_eq_spec() -> bool {
        true
    }

    open spec fn eq_spec(&self, other: &Matrix) -> bool {
        self@.len() == other@.len() && (forall|i: int, j: int|
            0 <= i < self@.len() && 0 <= j < self@.len() ==> approx_at_spec(
                #[trigger] self@[i][j],
                #[trigger] other@[i][j],
                EpsilonTier::Standard,
            ))
    }
}

} // verus!
