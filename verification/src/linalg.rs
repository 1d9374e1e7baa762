//! Dense linear algebra over fixed-point scalars: a matrix type with its
//! shape invariant, matrix-vector product, elementwise vector and matrix
//! operations, transposition, dot product, and a deterministic
//! pseudo-random initializer.

use vstd::prelude::*;
use crate::fixed::{add_fx, mul_fx, sub_fx, fx_add, fx_mul, fx_sub, SCALE};

verus! {

/// A raw vector as a sequence of mathematical integers.
pub open spec fn ints(v: Seq<i64>) -> Seq<int> {
    v.map_values(|x: i64| x as int)
}

/// The rows of a matrix as sequences of mathematical integers.
pub open spec fn mat_ints(d: Seq<Vec<i64>>) -> Seq<Seq<int>> {
    d.map_values(|r: Vec<i64>| ints(r@))
}

/// A dimension mismatch: the length an operation expected and the one it found.
#[derive(Clone, Copy, PartialEq, Eq, Structural, Debug)]
pub struct DimError {
    pub expected: usize,
    pub found: usize,
}

/// A dense matrix: `data` holds `nrows` rows of `ncols` raw values each.
#[derive(Clone, PartialEq, Debug)]
pub struct Matrix {
    pub nrows: usize,
    pub ncols: usize,
    pub data: Vec<Vec<i64>>,
}

impl View for Matrix {
    type V = Seq<Seq<int>>;

    open spec fn view(&self) -> Seq<Seq<int>> {
        mat_ints(self.data@)
    }
}

impl Matrix {
    /// The stored dimensions match the data: every row has `ncols` entries.
    pub open spec fn wf(&self) -> bool {
        &&& self.data.len() == self.nrows
        &&& forall|i: int|
            0 <= i < self.data.len() ==> (#[trigger] self.data[i]).len() == self.ncols
    }
}

/// Saturating dot product of the first `n` entries, accumulated left to right.
pub open spec fn dot_fx(a: Seq<int>, b: Seq<int>, n: nat) -> int
    decreases n,
{
    if n == 0 {
        0
    } else {
        add_fx(dot_fx(a, b, (n - 1) as nat), mul_fx(a[n - 1], b[n - 1]))
    }
}

/// Matrix-vector product: entry `i` is the dot product of row `i` with `x`.
pub open spec fn matvec_fx(m: Seq<Seq<int>>, x: Seq<int>) -> Seq<int> {
    Seq::new(m.len(), |i: int| dot_fx(m[i], x, m[i].len()))
}

/// Elementwise saturating vector sum.
pub open spec fn vadd_fx(a: Seq<int>, b: Seq<int>) -> Seq<int> {
    Seq::new(a.len(), |i: int| add_fx(a[i], b[i]))
}

/// Elementwise saturating vector difference.
pub open spec fn vsub_fx(a: Seq<int>, b: Seq<int>) -> Seq<int> {
    Seq::new(a.len(), |i: int| sub_fx(a[i], b[i]))
}

/// The transpose of `m`, which has `cols` columns.
pub open spec fn transpose_fx(m: Seq<Seq<int>>, cols: nat) -> Seq<Seq<int>> {
    Seq::new(cols, |j: int| Seq::new(m.len(), |i: int| m[i][j]))
}

/// Every entry multiplied by the scalar `alpha`.
pub open spec fn mscale_fx(alpha: int, m: Seq<Seq<int>>) -> Seq<Seq<int>> {
    Seq::new(m.len(), |i: int| Seq::new(m[i].len(), |j: int| mul_fx(alpha, m[i][j])))
}

/// Elementwise saturating matrix difference.
pub open spec fn msub_fx(a: Seq<Seq<int>>, b: Seq<Seq<int>>) -> Seq<Seq<int>> {
    Seq::new(a.len(), |i: int| Seq::new(a[i].len(), |j: int| sub_fx(a[i][j], b[i][j])))
}

/// One step of the linear congruential generator behind `Matrix::rand`.
pub open spec fn lcg_next(s: int) -> int {
    (s * 1664525 + 1013904223) % 4294967296
}

/// The generator state after `k` steps from `seed`.
#[verifier::opaque]
pub open spec fn lcg_state(seed: int, k: nat) -> int
    decreases k,
{
    if k == 0 {
        seed
    } else {
        lcg_next(lcg_state(seed, (k - 1) as nat))
    }
}

/// The seed `Matrix::rand` derives from the requested shape.
pub open spec fn rand_seed(nrows: nat, ncols: nat) -> int {
    ((nrows % 65536) * 65536 + ncols % 65536) as int
}

/// Entry `(i, j)` of the deterministic random matrix of the given shape:
/// a value strictly inside `(-SCALE, SCALE)`.
#[verifier::opaque]
pub open spec fn rand_entry_fx(nrows: nat, ncols: nat, i: int, j: int) -> int {
    lcg_state(rand_seed(nrows, ncols), (i * ncols + j + 1) as nat) % 1_999_999 - 999_999
}

proof fn lemma_rand_entry_value(nrows: nat, ncols: nat, i: int, j: int, s: int, s2: int)
    requires
        0 <= i,
        0 <= j,
        s == lcg_state(rand_seed(nrows, ncols), (i * ncols + j) as nat),
        s2 == lcg_next(s),
    ensures
        rand_entry_fx(nrows, ncols, i, j) == s2 % 1_999_999 - 999_999,
        s2 == lcg_state(rand_seed(nrows, ncols), (i * ncols + j + 1) as nat),
{
    reveal(rand_entry_fx);
    reveal(lcg_state);
    let seed = rand_seed(nrows, ncols);
    assert(0 <= i * ncols) by (nonlinear_arith)
        requires
            0 <= i,
    ;
    assert((i * ncols + j + 1) as nat == ((i * ncols + j) as nat) + 1);
    assert(lcg_state(seed, ((i * ncols + j) as nat) + 1) == lcg_next(
        lcg_state(seed, (i * ncols + j) as nat),
    ));
}

proof fn lemma_row_index_end(i: int, ncols: int)
    ensures
        i * ncols + ncols == (i + 1) * ncols,
{
    assert(i * ncols + ncols == (i + 1) * ncols) by (nonlinear_arith);
}

/// One generator step: the next state and the raw value it yields.
fn lcg_step(s: u64) -> (r: (u64, i64))
    requires
        s < 4294967296,
    ensures
        r.0 as int == lcg_next(s as int),
        r.0 < 4294967296,
        r.1 as int == (r.0 as int) % 1_999_999 - 999_999,
        -1_000_000 < r.1 < 1_000_000,
{
    proof {
        assert((s as int) * 1664525 + 1013904223 < 0x10000000000000000) by (nonlinear_arith)
            requires
                0 <= (s as int) && (s as int) < 4294967296,
        ;
        vstd::arithmetic::div_mod::lemma_mod_bound((s as int) * 1664525 + 1013904223, 4294967296);
    }
    let s2: u64 = (s * 1664525 + 1013904223) % 4294967296;
    proof {
        vstd::arithmetic::div_mod::lemma_mod_bound(s2 as int, 1_999_999);
    }
    let v: i64 = ((s2 % 1_999_999) as i64) - 999_999;
    (s2, v)
}

/// Transposing twice gives the original matrix back.
pub proof fn lemma_transpose_involution(m: Seq<Seq<int>>, cols: nat)
    requires
        forall|i: int| 0 <= i < m.len() ==> (#[trigger] m[i]).len() == cols,
    ensures
        transpose_fx(transpose_fx(m, cols), m.len() as nat) == m,
{
    let t = transpose_fx(m, cols);
    let tt = transpose_fx(t, m.len() as nat);
    assert forall|i: int| 0 <= i < m.len() implies tt[i] =~= m[i] by {
        assert(tt[i].len() == cols);
    }
    assert(tt =~~= m);
}

/// An exact copy of a raw vector.
pub fn copy_vec(v: &Vec<i64>) -> (r: Vec<i64>)
    ensures
        r@ == v@,
{
    let mut r: Vec<i64> = Vec::new();
    let mut i: usize = 0;
    while i < v.len()
        invariant
            0 <= i <= v.len(),
            r@ == v@.subrange(0, i as int),
        decreases v.len() - i,
    {
        r.push(v[i]);
        i = i + 1;
    }
    proof {
        assert(v@.subrange(0, v.len() as int) =~= v@);
    }
    r
}

/// Every entry of a vector multiplied by the scalar `alpha`.
pub open spec fn vscale_fx(alpha: int, v: Seq<int>) -> Seq<int> {
    Seq::new(v.len(), |i: int| mul_fx(alpha, v[i]))
}

/// Elementwise scalar-vector product.
pub fn scale_vec(alpha: i64, v: &Vec<i64>) -> (r: Vec<i64>)
    ensures
        ints(r@) == vscale_fx(alpha as int, ints(v@)),
        r.len() == v.len(),
{
    let mut out: Vec<i64> = Vec::new();
    let mut i: usize = 0;
    while i < v.len()
        invariant
            0 <= i <= v.len(),
            out.len() == i,
            forall|p: int|
                0 <= p < i ==> (#[trigger] out@[p]) as int == mul_fx(alpha as int, ints(v@)[p]),
        decreases v.len() - i,
    {
        out.push(fx_mul(alpha, v[i]));
        i = i + 1;
    }
    proof {
        assert(ints(out@) =~= vscale_fx(alpha as int, ints(v@)));
    }
    out
}

/// An exact copy of a matrix.
pub fn copy_matrix(m: &Matrix) -> (r: Matrix)
    requires
        m.wf(),
    ensures
        r.wf(),
        r.nrows == m.nrows,
        r.ncols == m.ncols,
        r@ == m@,
{
    let mut data: Vec<Vec<i64>> = Vec::new();
    let mut i: usize = 0;
    while i < m.nrows
        invariant
            m.wf(),
            0 <= i <= m.nrows,
            data.len() == i,
            forall|p: int| 0 <= p < i ==> (#[trigger] data[p]).len() == m.ncols,
            forall|p: int| 0 <= p < i ==> (#[trigger] data@[p])@ == m.data@[p]@,
        decreases m.nrows - i,
    {
        data.push(copy_vec(&m.data[i]));
        i = i + 1;
    }
    let r = Matrix { nrows: m.nrows, ncols: m.ncols, data };
    proof {
        assert forall|p: int| 0 <= p < m.nrows implies r@[p] =~= m@[p] by {
            assert(r.data@[p]@ == m.data@[p]@);
        }
        assert(r@ =~~= m@);
    }
    r
}

/// A zero-filled vector of the given length.
pub fn zeros(n: usize) -> (r: Vec<i64>)
    ensures
        r.len() == n,
        forall|i: int| 0 <= i < n ==> (#[trigger] r@[i]) == 0,
{
    let mut out: Vec<i64> = Vec::new();
    let mut i: usize = 0;
    while i < n
        invariant
            0 <= i <= n,
            out.len() == i,
            forall|p: int| 0 <= p < i ==> (#[trigger] out@[p]) == 0,
        decreases n - i,
    {
        out.push(0);
        i = i + 1;
    }
    out
}

/// Standard matrix-vector product; a dimension error when the column
/// count and the vector length differ.
pub fn multiply(m: &Matrix, v: &Vec<i64>) -> (r: Result<Vec<i64>, DimError>)
    requires
        m.wf(),
    ensures
        m.ncols == v.len() <==> r is Ok,
        r matches Ok(o) ==> ints(o@) == matvec_fx(m@, ints(v@)) && o.len() == m.nrows,
        r matches Err(e) ==> e == (DimError { expected: m.ncols, found: v.len() }),
{
    if m.ncols != v.len() {
        return Err(DimError { expected: m.ncols, found: v.len() });
    }
    let mut out: Vec<i64> = Vec::new();
    let mut i: usize = 0;
    while i < m.nrows
        invariant
            m.wf(),
            m.ncols == v.len(),
            0 <= i <= m.nrows,
            out.len() == i,
            forall|p: int| 0 <= p < i ==> (#[trigger] out@[p]) as int == matvec_fx(m@, ints(v@))[p],
        decreases m.nrows - i,
    {
        let row: &Vec<i64> = &m.data[i];
        let mut acc: i64 = 0;
        let mut j: usize = 0;
        while j < row.len()
            invariant
                m.wf(),
                m.ncols == v.len(),
                row == &m.data[i as int],
                0 <= i < m.nrows,
                0 <= j <= row.len(),
                acc as int == dot_fx(ints(row@), ints(v@), j as nat),
            decreases row.len() - j,
        {
            let p: i64 = fx_mul(row[j], v[j]);
            acc = fx_add(acc, p);
            j = j + 1;
        }
        out.push(acc);
        i = i + 1;
    }
    proof {
        assert(ints(out@) =~= matvec_fx(m@, ints(v@)));
    }
    Ok(out)
}

/// Elementwise vector sum; a dimension error when the lengths differ.
pub fn add(a: &Vec<i64>, b: &Vec<i64>) -> (r: Result<Vec<i64>, DimError>)
    ensures
        a.len() == b.len() <==> r is Ok,
        r matches Ok(o) ==> ints(o@) == vadd_fx(ints(a@), ints(b@)) && o.len() == a.len(),
        r matches Err(e) ==> e == (DimError { expected: a.len(), found: b.len() }),
{
    if a.len() != b.len() {
        return Err(DimError { expected: a.len(), found: b.len() });
    }
    let mut out: Vec<i64> = Vec::new();
    let mut i: usize = 0;
    while i < a.len()
        invariant
            a.len() == b.len(),
            0 <= i <= a.len(),
            out.len() == i,
            forall|p: int| 0 <= p < i ==> (#[trigger] out@[p]) as int == vadd_fx(ints(a@), ints(b@))[p],
        decreases a.len() - i,
    {
        out.push(fx_add(a[i], b[i]));
        i = i + 1;
    }
    proof {
        assert(ints(out@) =~= vadd_fx(ints(a@), ints(b@)));
    }
    Ok(out)
}

/// Elementwise vector difference; a dimension error when the lengths differ.
pub fn subtract(a: &Vec<i64>, b: &Vec<i64>) -> (r: Result<Vec<i64>, DimError>)
    ensures
        a.len() == b.len() <==> r is Ok,
        r matches Ok(o) ==> ints(o@) == vsub_fx(ints(a@), ints(b@)) && o.len() == a.len(),
        r matches Err(e) ==> e == (DimError { expected: a.len(), found: b.len() }),
{
    if a.len() != b.len() {
        return Err(DimError { expected: a.len(), found: b.len() });
    }
    let mut out: Vec<i64> = Vec::new();
    let mut i: usize = 0;
    while i < a.len()
        invariant
            a.len() == b.len(),
            0 <= i <= a.len(),
            out.len() == i,
            forall|p: int| 0 <= p < i ==> (#[trigger] out@[p]) as int == vsub_fx(ints(a@), ints(b@))[p],
        decreases a.len() - i,
    {
        out.push(fx_sub(a[i], b[i]));
        i = i + 1;
    }
    proof {
        assert(ints(out@) =~= vsub_fx(ints(a@), ints(b@)));
    }
    Ok(out)
}

/// Saturating dot product; a dimension error when the lengths differ.
pub fn dot_product(a: &Vec<i64>, b: &Vec<i64>) -> (r: Result<i64, DimError>)
    ensures
        a.len() == b.len() <==> r is Ok,
        r matches Ok(s) ==> s as int == dot_fx(ints(a@), ints(b@), a.len() as nat),
        r matches Err(e) ==> e == (DimError { expected: a.len(), found: b.len() }),
{
    if a.len() != b.len() {
        return Err(DimError { expected: a.len(), found: b.len() });
    }
    let mut acc: i64 = 0;
    let mut i: usize = 0;
    while i < a.len()
        invariant
            a.len() == b.len(),
            0 <= i <= a.len(),
            acc as int == dot_fx(ints(a@), ints(b@), i as nat),
        decreases a.len() - i,
    {
        let p: i64 = fx_mul(a[i], b[i]);
        acc = fx_add(acc, p);
        i = i + 1;
    }
    Ok(acc)
}

impl Matrix {
    /// A zero-filled matrix of the given shape.
    pub fn new(nrows: usize, ncols: usize) -> (r: Matrix)
        ensures
            r.wf(),
            r.nrows == nrows,
            r.ncols == ncols,
            forall|i: int, j: int| 0 <= i < nrows && 0 <= j < ncols ==> r@[i][j] == 0,
    {
        let mut data: Vec<Vec<i64>> = Vec::new();
        let mut i: usize = 0;
        while i < nrows
            invariant
                0 <= i <= nrows,
                data.len() == i,
                forall|p: int| 0 <= p < i ==> (#[trigger] data[p]).len() == ncols,
                forall|p: int, q: int|
                    0 <= p < i && 0 <= q < ncols ==> (#[trigger] data@[p]@[q]) == 0,
            decreases nrows - i,
        {
            let mut row: Vec<i64> = Vec::new();
            let mut j: usize = 0;
            while j < ncols
                invariant
                    0 <= j <= ncols,
                    row.len() == j,
                    forall|q: int| 0 <= q < j ==> (#[trigger] row@[q]) == 0,
                decreases ncols - j,
            {
                row.push(0);
                j = j + 1;
            }
            data.push(row);
            i = i + 1;
        }
        Matrix { nrows, ncols, data }
    }

    /// A matrix filled from a linear congruential generator seeded by the
    /// shape: deterministic, with every entry strictly inside `(-1, 1)`
    /// in real units.
    #[verifier::rlimit(100)]
    pub fn rand(nrows: usize, ncols: usize) -> (r: Matrix)
        ensures
            r.wf(),
            r.nrows == nrows,
            r.ncols == ncols,
            forall|i: int, j: int|
                0 <= i < nrows && 0 <= j < ncols ==> r@[i][j] == rand_entry_fx(
                    nrows as nat,
                    ncols as nat,
                    i,
                    j,
                ),
            forall|i: int, j: int|
                0 <= i < nrows && 0 <= j < ncols ==> -(SCALE as int) < #[trigger] r@[i][j]
                    < SCALE as int,
    {
        let s0: u64 = ((nrows % 65536) as u64) * 65536 + ((ncols % 65536) as u64);
        let ghost seed: int = rand_seed(nrows as nat, ncols as nat);
        let mut s: u64 = s0;
        proof {
            reveal(lcg_state);
            assert(s0 as int == lcg_state(seed, 0));
        }
        let mut data: Vec<Vec<i64>> = Vec::new();
        let mut i: usize = 0;
        while i < nrows
            invariant
                0 <= i <= nrows,
                data.len() == i,
                s0 as int == seed,
                seed == rand_seed(nrows as nat, ncols as nat),
                0 <= seed < 4294967296,
                s < 4294967296,
                s as int == lcg_state(seed, (i * ncols) as nat),
                forall|p: int| 0 <= p < i ==> (#[trigger] data[p]).len() == ncols,
                forall|p: int, q: int|
                    0 <= p < i && 0 <= q < ncols ==> (#[trigger] data@[p]@[q]) as int
                        == rand_entry_fx(nrows as nat, ncols as nat, p, q),
                forall|p: int, q: int|
                    0 <= p < i && 0 <= q < ncols ==> -1_000_000 < (#[trigger] data@[p]@[q])
                        < 1_000_000,
            decreases nrows - i,
        {
            let mut row: Vec<i64> = Vec::new();
            let mut j: usize = 0;
            while j < ncols
                invariant
                    0 <= i < nrows,
                    0 <= j <= ncols,
                    row.len() == j,
                    seed == rand_seed(nrows as nat, ncols as nat),
                    0 <= seed < 4294967296,
                    s < 4294967296,
                    s as int == lcg_state(seed, (i * ncols + j) as nat),
                    forall|q: int|
                        0 <= q < j ==> (#[trigger] row@[q]) as int == rand_entry_fx(
                            nrows as nat,
                            ncols as nat,
                            i as int,
                            q,
                        ),
                    forall|q: int| 0 <= q < j ==> -1_000_000 < (#[trigger] row@[q]) < 1_000_000,
                decreases ncols - j,
            {
                let (s2, v): (u64, i64) = lcg_step(s);
                proof {
                    lemma_rand_entry_value(
                        nrows as nat,
                        ncols as nat,
                        i as int,
                        j as int,
                        s as int,
                        s2 as int,
                    );
                }
                s = s2;
                row.push(v);
                j = j + 1;
            }
            proof {
                lemma_row_index_end(i as int, ncols as int);
            }
            data.push(row);
            i = i + 1;
        }
        let r = Matrix { nrows, ncols, data };
        proof {
            assert forall|ii: int, jj: int|
                0 <= ii < nrows && 0 <= jj < ncols implies r@[ii][jj] == rand_entry_fx(
                nrows as nat,
                ncols as nat,
                ii,
                jj,
            ) && -(SCALE as int) < r@[ii][jj] < SCALE as int by {
                assert(r@[ii] == ints(r.data@[ii]@));
                assert(r@[ii][jj] == r.data@[ii]@[jj] as int);
            }
        }
        r
    }

    /// A new matrix with rows and columns swapped; the input is untouched.
    pub fn transpose(m: &Matrix) -> (r: Matrix)
        requires
            m.wf(),
        ensures
            r.wf(),
            r.nrows == m.ncols,
            r.ncols == m.nrows,
            r@ == transpose_fx(m@, m.ncols as nat),
    {
        let mut data: Vec<Vec<i64>> = Vec::new();
        let mut j: usize = 0;
        while j < m.ncols
            invariant
                m.wf(),
                0 <= j <= m.ncols,
                data.len() == j,
                forall|p: int| 0 <= p < j ==> (#[trigger] data[p]).len() == m.nrows,
                forall|p: int, q: int|
                    0 <= p < j && 0 <= q < m.nrows ==> (#[trigger] data@[p]@[q]) as int == m@[q][p],
            decreases m.ncols - j,
        {
            let mut row: Vec<i64> = Vec::new();
            let mut i: usize = 0;
            while i < m.nrows
                invariant
                    m.wf(),
                    0 <= j < m.ncols,
                    0 <= i <= m.nrows,
                    row.len() == i,
                    forall|q: int| 0 <= q < i ==> (#[trigger] row@[q]) as int == m@[q][j as int],
                decreases m.nrows - i,
            {
                row.push(m.data[i][j]);
                i = i + 1;
            }
            data.push(row);
            j = j + 1;
        }
        let r = Matrix { nrows: m.ncols, ncols: m.nrows, data };
        proof {
            assert forall|p: int| 0 <= p < m.ncols implies r@[p] =~= transpose_fx(
                m@,
                m.ncols as nat,
            )[p] by {}
            assert(r@ =~~= transpose_fx(m@, m.ncols as nat));
        }
        r
    }

    /// Every entry multiplied by the scalar `alpha`.
    pub fn scale(alpha: i64, m: &Matrix) -> (r: Matrix)
        requires
            m.wf(),
        ensures
            r.wf(),
            r.nrows == m.nrows,
            r.ncols == m.ncols,
            r@ == mscale_fx(alpha as int, m@),
    {
        let mut data: Vec<Vec<i64>> = Vec::new();
        let mut i: usize = 0;
        while i < m.nrows
            invariant
                m.wf(),
                0 <= i <= m.nrows,
                data.len() == i,
                forall|p: int| 0 <= p < i ==> (#[trigger] data[p]).len() == m.ncols,
                forall|p: int, q: int|
                    0 <= p < i && 0 <= q < m.ncols ==> (#[trigger] data@[p]@[q]) as int == mul_fx(
                        alpha as int,
                        m@[p][q],
                    ),
            decreases m.nrows - i,
        {
            let mut row: Vec<i64> = Vec::new();
            let mut j: usize = 0;
            while j < m.ncols
                invariant
                    m.wf(),
                    0 <= i < m.nrows,
                    0 <= j <= m.ncols,
                    row.len() == j,
                    forall|q: int|
                        0 <= q < j ==> (#[trigger] row@[q]) as int == mul_fx(alpha as int, m@[i as int][q]),
                decreases m.ncols - j,
            {
                row.push(fx_mul(alpha, m.data[i][j]));
                j = j + 1;
            }
            data.push(row);
            i = i + 1;
        }
        let r = Matrix { nrows: m.nrows, ncols: m.ncols, data };
        proof {
            assert forall|p: int| 0 <= p < m.nrows implies r@[p] =~= mscale_fx(
                alpha as int,
                m@,
            )[p] by {}
            assert(r@ =~~= mscale_fx(alpha as int, m@));
        }
        r
    }

    /// Elementwise matrix difference; a dimension error when the shapes differ.
    pub fn sub(a: &Matrix, b: &Matrix) -> (r: Result<Matrix, DimError>)
        requires
            a.wf(),
            b.wf(),
        ensures
            (a.nrows == b.nrows && a.ncols == b.ncols) <==> r is Ok,
            r matches Ok(o) ==> o.wf() && o.nrows == a.nrows && o.ncols == a.ncols && o@
                == msub_fx(a@, b@),
    {
        if a.nrows != b.nrows {
            return Err(DimError { expected: a.nrows, found: b.nrows });
        }
        if a.ncols != b.ncols {
            return Err(DimError { expected: a.ncols, found: b.ncols });
        }
        let mut data: Vec<Vec<i64>> = Vec::new();
        let mut i: usize = 0;
        while i < a.nrows
            invariant
                a.wf(),
                b.wf(),
                a.nrows == b.nrows,
                a.ncols == b.ncols,
                0 <= i <= a.nrows,
                data.len() == i,
                forall|p: int| 0 <= p < i ==> (#[trigger] data[p]).len() == a.ncols,
                forall|p: int, q: int|
                    0 <= p < i && 0 <= q < a.ncols ==> (#[trigger] data@[p]@[q]) as int == sub_fx(
                        a@[p][q],
                        b@[p][q],
                    ),
            decreases a.nrows - i,
        {
            let mut row: Vec<i64> = Vec::new();
            let mut j: usize = 0;
            while j < a.ncols
                invariant
                    a.wf(),
                    b.wf(),
                    a.nrows == b.nrows,
                    a.ncols == b.ncols,
                    0 <= i < a.nrows,
                    0 <= j <= a.ncols,
                    row.len() == j,
                    forall|q: int|
                        0 <= q < j ==> (#[trigger] row@[q]) as int == sub_fx(a@[i as int][q], b@[i as int][q]),
                decreases a.ncols - j,
            {
                row.push(fx_sub(a.data[i][j], b.data[i][j]));
                j = j + 1;
            }
            data.push(row);
            i = i + 1;
        }
        let r = Matrix { nrows: a.nrows, ncols: a.ncols, data };
        proof {
            assert forall|p: int| 0 <= p < a.nrows implies r@[p] =~= msub_fx(a@, b@)[p] by {}
            assert(r@ =~~= msub_fx(a@, b@));
        }
        Ok(r)
    }
}

} // verus!
