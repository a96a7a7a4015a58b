use vstd::arithmetic::mul::lemma_mul_inequality;
use vstd::prelude::*;

verus! {

/// Why a matrix operation refused its operands.
#[derive(Clone, Copy, Debug, PartialEq, Eq, Structural)]
pub enum MatrixError {
    /// A flat list whose length is not `rows * cols`.
    ShapeMismatch,
    /// Operands whose shapes do not fit together: the columns of the left
    /// factor against the rows of the right one, or an input vector against
    /// the input layer of a network.
    DimensionMismatch,
    /// A layer of a network with no nodes.
    InvalidDimensions,
}

/// A dense `rows` x `cols` matrix, stored row-major in one flat buffer:
/// entry `(i, j)` sits at index `i * cols + j`.
#[derive(Clone)]
pub struct Matrix<T> {
    rows: u32,
    cols: u32,
    data: Vec<T>,
}

/// With `c` columns, an entry that comes before `(i, j)` in row-major order
/// has the smaller flat index.
proof fn lemma_index_order(c: int, i: int, j: int, i2: int, j2: int)
    requires
        0 <= j < c,
        0 <= j2 < c,
        0 <= i2,
        i2 < i || (i2 == i && j2 < j),
    ensures
        i2 * c + j2 < i * c + j,
{
    if i2 < i {
        lemma_mul_inequality(i2 + 1, i, c);
        assert((i2 + 1) * c == i2 * c + c) by (nonlinear_arith);
    }
}

/// The flat index of an entry inside the bounds lies inside the buffer.
proof fn lemma_index_bound(r: int, c: int, i: int, j: int)
    requires
        0 <= i < r,
        0 <= j < c,
    ensures
        0 <= i * c + j < r * c,
{
    lemma_mul_inequality(i + 1, r, c);
    lemma_mul_inequality(0, i, c);
    assert((i + 1) * c == i * c + c) by (nonlinear_arith);
}

/// Two distinct entries inside the bounds have distinct flat indices.
proof fn lemma_index_distinct(c: int, i: int, j: int, i2: int, j2: int)
    requires
        0 <= i,
        0 <= i2,
        0 <= j < c,
        0 <= j2 < c,
        i != i2 || j != j2,
    ensures
        i * c + j != i2 * c + j2,
{
    if i2 < i || (i2 == i && j2 < j) {
        lemma_index_order(c, i, j, i2, j2);
    } else {
        lemma_index_order(c, i2, j2, i, j);
    }
}

/// Row-major addressing: in a well-formed matrix whose buffer is `v`,
/// entry `(i, j)` inside the bounds is `v[i * cols + j]`, an index inside `v`.
pub proof fn lemma_row_major<T>(m: Matrix<T>, v: Seq<T>, i: int, j: int)
    requires
        m.wf(),
        m@ == v,
        0 <= i < m.nrows(),
        0 <= j < m.ncols(),
    ensures
        0 <= i * m.ncols() + j < v.len(),
        m.at(i, j) == v[i * m.ncols() + j],
{
    lemma_index_bound(m.nrows() as int, m.ncols() as int, i, j);
}

/// A matrix of `u64` filled with the default value holds only zeros: what
/// `Matrix::new` builds is the zero matrix.
pub proof fn lemma_default_filled_is_zero(m: Matrix<u64>)
    requires
        m.is_default_filled(),
    ensures
        forall|k: int| 0 <= k < m@.len() ==> #[trigger] m@[k] == 0,
{
    let z = choose|z: u64| call_ensures(u64::default, (), z) && m@ == Seq::new(m@.len(), |k: int| z);
    assert(z == 0);
}

/// Step `k` of a fold trace `s`: `s[k + 1]` is what `f` returns on
/// `(s[k], xs[k], ys[k])`.
pub open spec fn fold_step<T, F: Fn(T, T, T) -> T>(
    f: F,
    s: Seq<T>,
    xs: Seq<T>,
    ys: Seq<T>,
    k: int,
) -> bool {
    call_ensures(f, (s[k], xs[k], ys[k]), s[k + 1])
}

/// `r` is what folding `f` over the first `n` pairs `(xs[k], ys[k])`, from
/// `init` and in ascending `k`, gives: a trace of running values leads from
/// `init` to `r`, each one some `f(acc, xs[k], ys[k])` of the one before.
/// With `f(acc, x, y) = acc + x * y` this is the dot product of the two
/// prefixes.
pub open spec fn accumulates<T, F: Fn(T, T, T) -> T>(
    f: F,
    init: T,
    xs: Seq<T>,
    ys: Seq<T>,
    n: nat,
    r: T,
) -> bool {
    exists|s: Seq<T>|
        #![trigger s.len(), s[0]]
        s.len() == n + 1 && s[0] == init && s[n as int] == r && forall|k: int|
            0 <= k < n ==> #[trigger] fold_step(f, s, xs, ys, k)
}

/// `f` gives one result for each triple of arguments.
pub open spec fn is_function3<T, F: Fn(T, T, T) -> T>(f: F) -> bool {
    forall|a: T, b: T, c: T, r1: T, r2: T|
        #![trigger call_ensures(f, (a, b, c), r1), call_ensures(f, (a, b, c), r2)]
        call_ensures(f, (a, b, c), r1) && call_ensures(f, (a, b, c), r2) ==> r1 == r2
}

/// Two fold traces from one start agree up to step `m`.
proof fn lemma_traces_agree<T, F: Fn(T, T, T) -> T>(
    f: F,
    s1: Seq<T>,
    s2: Seq<T>,
    xs: Seq<T>,
    ys: Seq<T>,
    n: nat,
    m: nat,
)
    requires
        is_function3(f),
        m <= n,
        s1.len() == n + 1,
        s2.len() == n + 1,
        s1[0] == s2[0],
        forall|k: int| 0 <= k < n ==> #[trigger] fold_step(f, s1, xs, ys, k),
        forall|k: int| 0 <= k < n ==> #[trigger] fold_step(f, s2, xs, ys, k),
    ensures
        s1[m as int] == s2[m as int],
    decreases m,
{
    if m > 0 {
        lemma_traces_agree(f, s1, s2, xs, ys, n, (m - 1) as nat);
        assert(fold_step(f, s1, xs, ys, m - 1));
        assert(fold_step(f, s2, xs, ys, m - 1));
    }
}

/// With a deterministic `f`, a fold has one result.
pub proof fn lemma_accumulates_unique<T, F: Fn(T, T, T) -> T>(
    f: F,
    init: T,
    xs: Seq<T>,
    ys: Seq<T>,
    n: nat,
    r1: T,
    r2: T,
)
    requires
        is_function3(f),
        accumulates(f, init, xs, ys, n, r1),
        accumulates(f, init, xs, ys, n, r2),
    ensures
        r1 == r2,
{
    let s1 = choose|s: Seq<T>|
        #![trigger s.len(), s[0]]
        s.len() == n + 1 && s[0] == init && s[n as int] == r1 && forall|k: int|
            0 <= k < n ==> #[trigger] fold_step(f, s, xs, ys, k);
    let s2 = choose|s: Seq<T>|
        #![trigger s.len(), s[0]]
        s.len() == n + 1 && s[0] == init && s[n as int] == r2 && forall|k: int|
            0 <= k < n ==> #[trigger] fold_step(f, s, xs, ys, k);
    lemma_traces_agree(f, s1, s2, xs, ys, n, n);
}

impl<T> View for Matrix<T> {
    type V = Seq<T>;

    /// The flat row-major buffer.
    closed spec fn view(&self) -> Seq<T> {
        self.data@
    }
}

impl<T> Matrix<T> {
    /// The number of rows.
    pub closed spec fn nrows(&self) -> nat {
        self.rows as nat
    }

    /// The number of columns.
    pub closed spec fn ncols(&self) -> nat {
        self.cols as nat
    }

    /// The buffer holds exactly one value per entry, both dimensions are
    /// `u32` values and every flat index is a `usize`.
    pub open spec fn wf(&self) -> bool {
        &&& self@.len() == self.nrows() * self.ncols()
        &&& self@.len() <= usize::MAX
        &&& self.nrows() <= u32::MAX
        &&& self.ncols() <= u32::MAX
    }

    /// Entry `(i, j)`, read from the row-major buffer.
    pub open spec fn at(&self, i: int, j: int) -> T {
        self@[i * self.ncols() + j]
    }

    /// Row `i`, left to right.
    pub open spec fn row(&self, i: int) -> Seq<T> {
        Seq::new(self.ncols(), |k: int| self.at(i, k))
    }

    /// Column `j`, top to bottom.
    pub open spec fn column(&self, j: int) -> Seq<T> {
        Seq::new(self.nrows(), |k: int| self.at(k, j))
    }
}

impl<T: Default> Matrix<T> {
    /// Every entry holds the same value, one that `T::default()` returns.
    pub open spec fn is_default_filled(&self) -> bool {
        exists|z: T| call_ensures(T::default, (), z) && self@ == Seq::new(self@.len(), |k: int| z)
    }
}

impl<T: Copy> Matrix<T> {
    /// A `rows` x `cols` matrix whose every entry is `T`'s default value
    /// (zero for the numeric types).
    pub fn new(rows: u32, cols: u32) -> (r: Self)
        where T: Default,
        requires
            rows * cols <= usize::MAX,
        ensures
            r.wf(),
            r.nrows() == rows,
            r.ncols() == cols,
            r.is_default_filled(),
    {
        let z = T::default();
        let n = rows as usize * cols as usize;
        let mut data: Vec<T> = Vec::new();
        let mut k: usize = 0;
        while k < n
            invariant
                k <= n,
                data@ == Seq::new(k as nat, |m: int| z),
            decreases n - k,
        {
            data.push(z);
            k += 1;
            assert(data@ =~= Seq::new(k as nat, |m: int| z));
        }
        let r = Matrix { rows, cols, data };
        assert(r@ == Seq::new(r@.len(), |m: int| z));
        r
    }

    /// A `rows` x `cols` matrix holding `list` in row-major order, or
    /// `ShapeMismatch` when `list` does not have `rows * cols` values.
    pub fn from(rows: u32, cols: u32, list: Vec<T>) -> (r: Result<Self, MatrixError>)
        ensures
            match r {
                Ok(m) => list@.len() == rows * cols && m.wf() && m.nrows() == rows
                    && m.ncols() == cols && m@ == list@,
                Err(e) => list@.len() != rows * cols && e == MatrixError::ShapeMismatch,
            },
    {
        proof {
            lemma_mul_inequality(rows as int, u32::MAX as int, cols as int);
            lemma_mul_inequality(cols as int, u32::MAX as int, u32::MAX as int);
        }
        if rows as u128 * cols as u128 != list.len() as u128 {
            return Err(MatrixError::ShapeMismatch);
        }
        Ok(Matrix { rows, cols, data: list })
    }

    /// The number of rows.
    pub fn rows(&self) -> (r: u32)
        ensures
            r == self.nrows(),
    {
        self.rows
    }

    /// The number of columns.
    pub fn cols(&self) -> (r: u32)
        ensures
            r == self.ncols(),
    {
        self.cols
    }

    /// A copy of the flat row-major buffer.
    pub fn data(&self) -> (r: Vec<T>)
        ensures
            r@ == self@,
    {
        let mut r: Vec<T> = Vec::new();
        let mut k: usize = 0;
        while k < self.data.len()
            invariant
                k <= self.data@.len(),
                r@ == self.data@.subrange(0, k as int),
            decreases self.data@.len() - k,
        {
            r.push(self.data[k]);
            k += 1;
            assert(r@ =~= self.data@.subrange(0, k as int));
        }
        assert(r@ =~= self.data@);
        r
    }

    /// The flat index of entry `(i, j)`.
    pub fn calc_idx(&self, i: u32, j: u32) -> (r: usize)
        requires
            self.wf(),
            i < self.nrows(),
            j < self.ncols(),
        ensures
            r == i * self.ncols() + j,
            r < self@.len(),
    {
        proof {
            lemma_index_bound(self.rows as int, self.cols as int, i as int, j as int);
        }
        i as usize * self.cols as usize + j as usize
    }

    /// Entry `(row, col)`.
    pub fn get(&self, row: u32, col: u32) -> (r: T)
        requires
            self.wf(),
            row < self.nrows(),
            col < self.ncols(),
        ensures
            r == self.at(row as int, col as int),
    {
        let idx = self.calc_idx(row, col);
        self.data[idx]
    }

    /// Replaces every entry with `cb(value, row, col)`, visiting the entries
    /// in row-major order.
    pub fn map<F>(&mut self, cb: F)
        where F: Fn(T, u32, u32) -> T,
        requires
            old(self).wf(),
            forall|v: T, i: u32, j: u32|
                i < old(self).nrows() && j < old(self).ncols() ==> #[trigger] cb.requires((v, i, j)),
        ensures
            final(self).wf(),
            final(self).nrows() == old(self).nrows(),
            final(self).ncols() == old(self).ncols(),
            forall|i: int, j: int|
                0 <= i < old(self).nrows() && 0 <= j < old(self).ncols() ==> cb.ensures(
                    (old(self).at(i, j), i as u32, j as u32),
                    #[trigger] final(self).at(i, j),
                ),
    {
        let ghost before = *self;
        let mut i: u32 = 0;
        while i < self.rows
            invariant
                self.wf(),
                self.rows == before.rows,
                self.cols == before.cols,
                i <= self.rows,
                forall|v: T, i: u32, j: u32|
                    i < before.nrows() && j < before.ncols() ==> #[trigger] cb.requires((v, i, j)),
                forall|i2: int, j2: int|
                    0 <= i2 < i && 0 <= j2 < self.cols ==> cb.ensures(
                        (before.at(i2, j2), i2 as u32, j2 as u32),
                        #[trigger] self.at(i2, j2),
                    ),
                forall|i2: int, j2: int|
                    i <= i2 < self.rows && 0 <= j2 < self.cols ==> #[trigger] self.at(i2, j2)
                        == before.at(i2, j2),
            decreases self.rows - i,
        {
            let mut j: u32 = 0;
            while j < self.cols
                invariant
                    self.wf(),
                    self.rows == before.rows,
                    self.cols == before.cols,
                    i < self.rows,
                    j <= self.cols,
                    forall|v: T, i: u32, j: u32|
                        i < before.nrows() && j < before.ncols() ==> #[trigger] cb.requires((v, i, j)),
                    forall|i2: int, j2: int|
                        0 <= i2 < self.rows && 0 <= j2 < self.cols && (i2 < i || (i2 == i && j2 < j))
                            ==> cb.ensures(
                            (before.at(i2, j2), i2 as u32, j2 as u32),
                            #[trigger] self.at(i2, j2),
                        ),
                    forall|i2: int, j2: int|
                        0 <= i2 < self.rows && 0 <= j2 < self.cols && (i2 > i || (i2 == i && j2 >= j))
                            ==> #[trigger] self.at(i2, j2) == before.at(i2, j2),
                decreases self.cols - j,
            {
                let idx = self.calc_idx(i, j);
                assert(self.data@[idx as int] == before.at(i as int, j as int)) by {
                    assert(self.at(i as int, j as int) == before.at(i as int, j as int));
                }
                let v = cb(self.data[idx], i, j);
                let ghost prev = *self;
                self.data.set(idx, v);
                proof {
                    assert forall|i2: int, j2: int|
                        0 <= i2 < self.rows && 0 <= j2 < self.cols && (i2 != i || j2 != j)
                            implies #[trigger] self.at(i2, j2) == prev.at(i2, j2) by {
                        lemma_index_distinct(self.cols as int, i as int, j as int, i2, j2);
                        lemma_index_bound(self.rows as int, self.cols as int, i2, j2);
                    }
                    assert(self.at(i as int, j as int) == v);
                }
                j += 1;
            }
            i += 1;
        }
    }

    /// Multiplies every entry by `num`; `times` is the multiplication of the
    /// element type, called as `times(entry, num)`.
    pub fn scale<F>(&mut self, num: T, times: F)
        where F: Fn(T, T) -> T + Copy,
        requires
            old(self).wf(),
            forall|x: T, y: T| #[trigger] times.requires((x, y)),
        ensures
            final(self).wf(),
            final(self).nrows() == old(self).nrows(),
            final(self).ncols() == old(self).ncols(),
            forall|i: int, j: int|
                0 <= i < old(self).nrows() && 0 <= j < old(self).ncols() ==> call_ensures(
                    times,
                    (old(self).at(i, j), num),
                    #[trigger] final(self).at(i, j),
                ),
    {
        let scaling = |v: T, _row: u32, _col: u32| -> (s: T)
            ensures
                call_ensures(times, (v, num), s),
            {
                times(v, num)
            };
        self.map(scaling);
    }

    /// The matrix product `a * b`, or `DimensionMismatch` when the columns of
    /// `a` do not match the rows of `b`. Entry `(i, j)` starts from `T`'s
    /// default value and takes `fma(acc, a[i][k], b[k][j])` for `k` in
    /// ascending order; `fma` is the multiply-add of the element type.
    pub fn mult<F>(a: &Matrix<T>, b: &Matrix<T>, fma: F) -> (r: Result<Matrix<T>, MatrixError>)
        where T: Default, F: Fn(T, T, T) -> T + Copy,
        requires
            a.wf(),
            b.wf(),
            a.nrows() * b.ncols() <= usize::MAX,
            forall|acc: T, x: T, y: T| #[trigger] fma.requires((acc, x, y)),
        ensures
            match r {
                Ok(c) => {
                    &&& a.ncols() == b.nrows()
                    &&& c.wf()
                    &&& c.nrows() == a.nrows()
                    &&& c.ncols() == b.ncols()
                    &&& exists|z: T|
                        call_ensures(T::default, (), z) && forall|i: int, j: int|
                            0 <= i < c.nrows() && 0 <= j < c.ncols() ==> accumulates(
                                fma,
                                z,
                                a.row(i),
                                b.column(j),
                                a.ncols(),
                                #[trigger] c.at(i, j),
                            )
                },
                Err(e) => a.ncols() != b.nrows() && e == MatrixError::DimensionMismatch,
            },
    {
        if a.cols() != b.rows() {
            return Err(MatrixError::DimensionMismatch);
        }
        let zero = T::default();
        let mut result = Matrix::new(a.rows(), b.cols());
        let entry = |_v: T, row: u32, col: u32| -> (s: T)
            requires
                row < a.nrows(),
                col < b.ncols(),
            ensures
                accumulates(fma, zero, a.row(row as int), b.column(col as int), a.ncols(), s),
            {
                let mut sum = zero;
                let mut k: u32 = 0;
                let ghost mut trace: Seq<T> = seq![zero];
                while k < a.cols()
                    invariant
                        a.wf(),
                        b.wf(),
                        a.ncols() == b.nrows(),
                        row < a.nrows(),
                        col < b.ncols(),
                        k <= a.ncols(),
                        forall|acc: T, x: T, y: T| #[trigger] fma.requires((acc, x, y)),
                        trace.len() == k + 1,
                        trace[0] == zero,
                        trace[k as int] == sum,
                        forall|m: int|
                            0 <= m < k ==> #[trigger] fold_step(
                                fma,
                                trace,
                                a.row(row as int),
                                b.column(col as int),
                                m,
                            ),
                    decreases a.ncols() - k,
                {
                    let x = a.get(row, k);
                    let y = b.get(k, col);
                    let next = fma(sum, x, y);
                    proof {
                        let prev = trace;
                        trace = trace.push(next);
                        assert forall|m: int| 0 <= m <= k implies #[trigger] fold_step(
                            fma,
                            trace,
                            a.row(row as int),
                            b.column(col as int),
                            m,
                        ) by {
                            if m < k {
                                assert(fold_step(fma, prev, a.row(row as int), b.column(col as int), m));
                            }
                        }
                    }
                    sum = next;
                    k += 1;
                }
                sum
            };
        result.map(entry);
        assert forall|i: int, j: int|
            0 <= i < result.nrows() && 0 <= j < result.ncols() implies accumulates(
            fma,
            zero,
            a.row(i),
            b.column(j),
            a.ncols(),
            #[trigger] result.at(i, j),
        ) by {
            assert((i as u32) as int == i && (j as u32) as int == j);
        }
        Ok(result)
    }
}

} // verus!
