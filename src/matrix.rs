use vstd::prelude::*;

verus! {

/// Which rule a matrix operation broke.
#[derive(Clone, Copy, Debug, PartialEq, Eq, Structural)]
pub enum MatErrorKind {
    /// A row, column or element index lies outside the matrix.
    IndexOutOfBounds,
    /// The operands' dimensions do not fit together.
    SizeMismatch,
}

/// Error of a matrix operation.
#[derive(Clone, Debug)]
pub struct MatError {
    pub kind: MatErrorKind,
    pub msg: String,
}

impl MatError {
    pub fn index_error() -> (e: MatError)
        ensures
            e.kind == MatErrorKind::IndexOutOfBounds,
    {
        MatError { kind: MatErrorKind::IndexOutOfBounds, msg: String::from_str("Index error.") }
    }

    pub fn size_mismatch() -> (e: MatError)
        ensures
            e.kind == MatErrorKind::SizeMismatch,
    {
        MatError { kind: MatErrorKind::SizeMismatch, msg: String::from_str("Invalid matrix size.") }
    }

    /// The error's text.
    pub fn message(&self) -> (s: String)
        ensures
            s@ == self.msg@,
    {
        self.msg.clone()
    }
}

/// Position of element `(r, c)` in column-major storage with `rows` rows.
pub open spec fn cell_index(rows: int, r: int, c: int) -> int {
    r + c * rows
}

/// A position inside the matrix names a cell inside its storage.
pub proof fn lemma_cell_in_bounds(rows: int, cols: int, r: int, c: int)
    requires
        0 <= r < rows,
        0 <= c < cols,
    ensures
        0 <= cell_index(rows, r, c) < rows * cols,
        cell_index(rows, r, c) == c * rows + r,
{
    assert(0 <= c * rows) by (nonlinear_arith)
        requires
            0 <= c,
            0 <= rows,
    ;
    assert(c * rows + r < rows * cols) by (nonlinear_arith)
        requires
            0 <= r < rows,
            0 <= c < cols,
    ;
}

/// Distinct positions of a matrix occupy distinct cells.
pub proof fn lemma_cell_distinct(rows: int, cols: int, r1: int, c1: int, r2: int, c2: int)
    requires
        0 <= r1 < rows,
        0 <= c1 < cols,
        0 <= r2 < rows,
        0 <= c2 < cols,
    ensures
        cell_index(rows, r1, c1) == cell_index(rows, r2, c2) <==> (r1 == r2 && c1 == c2),
{
    if c1 < c2 {
        assert(c1 * rows + rows <= c2 * rows) by (nonlinear_arith)
            requires
                c1 < c2,
                0 <= rows,
        ;
    } else if c2 < c1 {
        assert(c2 * rows + rows <= c1 * rows) by (nonlinear_arith)
            requires
                c2 < c1,
                0 <= rows,
        ;
    }
}

/// `acc` runs `step` over `xs` from `start`: `acc[0]` is `start` and each
/// `acc[k + 1]` is a result of `step(acc[k], xs[k])`.
pub open spec fn is_chain<T, F: Fn(T, T) -> T>(step: F, start: T, xs: Seq<T>, acc: Seq<T>) -> bool {
    &&& acc.len() == xs.len() + 1
    &&& acc[0] == start
    &&& forall|k: int| 0 <= k < xs.len() ==> step.ensures((acc[k], xs[k]), #[trigger] acc[k + 1])
}

/// `result` is what `step` leaves after running over `xs` from `start`.
pub open spec fn folds_to<T, F: Fn(T, T) -> T>(step: F, start: T, xs: Seq<T>, result: T) -> bool {
    exists|acc: Seq<T>| #[trigger] is_chain(step, start, xs, acc) && acc.last() == result
}

/// `result` is the mean of `xs`: their sum by `plus` from `zero`, divided
/// by `n` through `div`.
pub open spec fn mean_of<T, F: Fn(T, T) -> T, D: Fn(T, usize) -> T>(
    plus: F,
    div: D,
    zero: T,
    xs: Seq<T>,
    n: usize,
    result: T,
) -> bool {
    exists|acc: Seq<T>| #[trigger] is_chain(plus, zero, xs, acc) && div.ensures((acc.last(), n), result)
}

/// `acc` accumulates products of `a` and `b`, pair by pair, from `start`:
/// each `acc[k + 1]` is a result of `mul_add(acc[k], a[k], b[k])`.
pub open spec fn is_product_chain<T, F: Fn(T, T, T) -> T>(
    mul_add: F,
    start: T,
    a: Seq<T>,
    b: Seq<T>,
    acc: Seq<T>,
) -> bool {
    &&& acc.len() == a.len() + 1
    &&& acc[0] == start
    &&& forall|k: int|
        0 <= k < a.len() ==> mul_add.ensures((acc[k], a[k], b[k]), #[trigger] acc[k + 1])
}

/// `result` is the inner product of `a` and `b` by `mul_add` from `zero`.
pub open spec fn inner_product_of<T, F: Fn(T, T, T) -> T>(
    mul_add: F,
    zero: T,
    a: Seq<T>,
    b: Seq<T>,
    result: T,
) -> bool {
    exists|acc: Seq<T>| #[trigger] is_product_chain(mul_add, zero, a, b, acc) && acc.last() == result
}

/// Along a chain of products with a column of the identity, the
/// accumulator stays `zero` up to the one entry and holds that entry after.
proof fn lemma_identity_chain<T, F: Fn(T, T, T) -> T>(
    mul_add: F,
    zero: T,
    one: T,
    xs: Seq<T>,
    ys: Seq<T>,
    acc: Seq<T>,
    c: int,
    k: int,
)
    requires
        is_product_chain(mul_add, zero, xs, ys, acc),
        ys.len() == xs.len(),
        0 <= c < xs.len(),
        0 <= k <= xs.len(),
        forall|i: int| 0 <= i < ys.len() ==> #[trigger] ys[i] == if i == c {
            one
        } else {
            zero
        },
        forall|a: T, x: T, r: T| mul_add.ensures((a, x, zero), r) ==> r == a,
        forall|x: T, r: T| mul_add.ensures((zero, x, one), r) ==> r == x,
    ensures
        acc[k] == if k <= c {
            zero
        } else {
            xs[c]
        },
    decreases k,
{
    if k > 0 {
        lemma_identity_chain(mul_add, zero, one, xs, ys, acc, c, k - 1);
        let j = k - 1;
        assert(mul_add.ensures((acc[j], xs[j], ys[j]), acc[j + 1]));
    }
}

/// Multiplying by the identity matrix changes nothing. Here the identity is
/// taken with respect to the element operations: accumulating a product
/// with `zero` leaves the accumulator as it was, and accumulating `x` times
/// `one` onto `zero` gives `x`. Then every product of `a` with the identity,
/// as `dot` describes it, equals `a`.
pub proof fn lemma_dot_identity<T: Copy, F: Fn(T, T, T) -> T>(
    a: Matrix<T>,
    id: Matrix<T>,
    prod: Matrix<T>,
    zero: T,
    one: T,
    mul_add: F,
)
    requires
        id.num_rows() == a.num_cols(),
        id.num_cols() == a.num_cols(),
        forall|i: int, j: int|
            0 <= i < id.num_rows() && 0 <= j < id.num_cols() ==> #[trigger] id.at(i, j) == if i
                == j {
                one
            } else {
                zero
            },
        forall|acc: T, x: T, r: T| mul_add.ensures((acc, x, zero), r) ==> r == acc,
        forall|x: T, r: T| mul_add.ensures((zero, x, one), r) ==> r == x,
        prod.num_rows() == a.num_rows(),
        prod.num_cols() == id.num_cols(),
        forall|r: int, c: int|
            0 <= r < prod.num_rows() && 0 <= c < prod.num_cols() ==> inner_product_of(
                mul_add,
                zero,
                a.row(r),
                id.column(c),
                #[trigger] prod.at(r, c),
            ),
    ensures
        prod.same_as(&a),
{
    assert forall|r: int, c: int|
        0 <= r < prod.num_rows() && 0 <= c < prod.num_cols() implies #[trigger] prod.at(r, c)
        == a.at(r, c) by {
        let xs = a.row(r);
        let ys = id.column(c);
        assert(inner_product_of(mul_add, zero, xs, ys, prod.at(r, c)));
        let acc = choose|acc: Seq<T>|
            #[trigger] is_product_chain(mul_add, zero, xs, ys, acc) && acc.last() == prod.at(r, c);
        let n = xs.len() as int;
        lemma_identity_chain(mul_add, zero, one, xs, ys, acc, c, n);
        assert(acc[n] == acc.last());
    }
}

/// A dense matrix stored column by column: element `(r, c)` sits at
/// position `r + c * rows`, so the entries of one column are contiguous.
pub struct Matrix<T> {
    rows: usize,
    cols: usize,
    values: Vec<T>,
}

impl<T: Copy> Matrix<T> {
    pub closed spec fn num_rows(&self) -> nat {
        self.rows as nat
    }

    pub closed spec fn num_cols(&self) -> nat {
        self.cols as nat
    }

    /// The storage, column after column.
    pub closed spec fn entries(&self) -> Seq<T> {
        self.values@
    }

    /// The storage holds exactly `rows * cols` entries.
    pub closed spec fn wf(&self) -> bool {
        &&& self.values@.len() == self.rows * self.cols
        &&& self.rows * self.cols <= usize::MAX
    }

    pub open spec fn at(&self, r: int, c: int) -> T {
        self.entries()[cell_index(self.num_rows() as int, r, c)]
    }

    /// Column `c` as a sequence of `rows` entries.
    pub open spec fn column(&self, c: int) -> Seq<T> {
        Seq::new(self.num_rows(), |r: int| self.at(r, c))
    }

    /// Row `r` as a sequence of `cols` entries.
    pub open spec fn row(&self, r: int) -> Seq<T> {
        Seq::new(self.num_cols(), |c: int| self.at(r, c))
    }

    /// Same shape, and equal entries at every position.
    pub open spec fn same_as(&self, other: &Matrix<T>) -> bool {
        &&& self.num_rows() == other.num_rows()
        &&& self.num_cols() == other.num_cols()
        &&& forall|r: int, c: int|
            0 <= r < self.num_rows() && 0 <= c < self.num_cols() ==> #[trigger] self.at(r, c)
                == other.at(r, c)
    }

    /// A `rows` by `cols` matrix with every entry equal to `fill`.
    pub fn new(rows: usize, cols: usize, fill: T) -> (m: Matrix<T>)
        requires
            rows * cols <= usize::MAX,
        ensures
            m.wf(),
            m.num_rows() == rows,
            m.num_cols() == cols,
            forall|r: int, c: int| 0 <= r < rows && 0 <= c < cols ==> #[trigger] m.at(r, c) == fill,
    {
        let n: usize = rows * cols;
        let mut values: Vec<T> = Vec::with_capacity(n);
        let mut i: usize = 0;
        while i < n
            invariant
                i <= n,
                values@.len() == i,
                forall|j: int| 0 <= j < i ==> values@[j] == fill,
            decreases n - i,
        {
            values.push(fill);
            i = i + 1;
        }
        let m = Matrix { rows, cols, values };
        assert forall|r: int, c: int| 0 <= r < rows && 0 <= c < cols implies #[trigger] m.at(r, c)
            == fill by {
            lemma_cell_in_bounds(rows as int, cols as int, r, c);
        }
        m
    }

    /// A `rows` by `cols` matrix over `values`, read column by column; a
    /// size mismatch unless `values` holds exactly `rows * cols` entries.
    pub fn from_column_major(rows: usize, cols: usize, values: Vec<T>) -> (res: Result<
        Matrix<T>,
        MatError,
    >)
        ensures
            res is Ok <==> values@.len() == rows * cols,
            res is Ok ==> {
                let m = res->Ok_0;
                &&& m.wf()
                &&& m.num_rows() == rows
                &&& m.num_cols() == cols
                &&& m.entries() == values@
            },
            res is Err ==> res->Err_0.kind == MatErrorKind::SizeMismatch,
    {
        if rows == 0 || cols == 0 {
            if values.len() == 0 {
                proof {
                    assert(rows * cols == 0) by (nonlinear_arith)
                        requires
                            rows == 0 || cols == 0,
                    ;
                }
                return Ok(Matrix { rows, cols, values });
            } else {
                proof {
                    assert(rows * cols == 0) by (nonlinear_arith)
                        requires
                            rows == 0 || cols == 0,
                    ;
                }
                return Err(MatError::size_mismatch());
            }
        }
        if values.len() / rows != cols || values.len() % rows != 0 {
            proof {
                assert(values@.len() != rows * cols) by (nonlinear_arith)
                    requires
                        rows > 0,
                        values@.len() as int / rows as int != cols || values@.len() as int % rows as int != 0,
                ;
            }
            return Err(MatError::size_mismatch());
        }
        proof {
            assert(values@.len() == rows * cols) by (nonlinear_arith)
                requires
                    rows > 0,
                    values@.len() as int / rows as int == cols,
                    values@.len() as int % rows as int == 0,
            ;
        }
        Ok(Matrix { rows, cols, values })
    }

    pub fn rows(&self) -> (n: usize)
        ensures
            n == self.num_rows(),
    {
        self.rows
    }

    pub fn cols(&self) -> (n: usize)
        ensures
            n == self.num_cols(),
    {
        self.cols
    }

    /// The storage, column after column.
    pub fn values(&self) -> (v: &[T])
        ensures
            v@ == self.entries(),
    {
        self.values.as_slice()
    }

    /// Whether a printout lists every entry: only matrices of at most a
    /// hundred entries are written out in full.
    pub fn shows_all_entries(&self) -> (b: bool)
        requires
            self.wf(),
        ensures
            b == (self.num_rows() * self.num_cols() <= 100),
    {
        self.rows * self.cols <= 100
    }

    /// Entry `(r, c)`, or an index error when it lies outside the matrix.
    pub fn get(&self, r: usize, c: usize) -> (res: Result<T, MatError>)
        requires
            self.wf(),
        ensures
            r < self.num_rows() && c < self.num_cols() ==> res == Ok::<T, MatError>(
                self.at(r as int, c as int),
            ),
            !(r < self.num_rows() && c < self.num_cols()) ==> res is Err && res->Err_0.kind
                == MatErrorKind::IndexOutOfBounds,
    {
        if r < self.rows && c < self.cols {
            proof {
                lemma_cell_in_bounds(self.rows as int, self.cols as int, r as int, c as int);
            }
            Ok(self.values[c * self.rows + r])
        } else {
            Err(MatError::index_error())
        }
    }

    /// A mutable reference to entry `(r, c)`; writing through it changes
    /// that entry alone.
    pub fn get_mut(&mut self, r: usize, c: usize) -> (e: &mut T)
        requires
            old(self).wf(),
            r < old(self).num_rows(),
            c < old(self).num_cols(),
        ensures
            *e == old(self).at(r as int, c as int),
            final(self).wf(),
            final(self).num_rows() == old(self).num_rows(),
            final(self).num_cols() == old(self).num_cols(),
            final(self).entries() == old(self).entries().update(
                cell_index(old(self).num_rows() as int, r as int, c as int),
                *final(e),
            ),
    {
        proof {
            lemma_cell_in_bounds(self.rows as int, self.cols as int, r as int, c as int);
        }
        let i: usize = c * self.rows + r;
        &mut self.values[i]
    }

    /// Negates every entry in place, each through `negate`.
    pub fn minus<F: Fn(T) -> T>(&mut self, negate: F)
        requires
            old(self).wf(),
            forall|x: T| negate.requires((x,)),
        ensures
            final(self).wf(),
            final(self).num_rows() == old(self).num_rows(),
            final(self).num_cols() == old(self).num_cols(),
            forall|i: int|
                0 <= i < old(self).entries().len() ==> negate.ensures(
                    (old(self).entries()[i],),
                    #[trigger] final(self).entries()[i],
                ),
    {
        let ghost before = *self;
        let n = self.values.len();
        let mut i: usize = 0;
        while i < n
            invariant
                forall|x: T| negate.requires((x,)),
                n == before.values@.len(),
                self.rows == before.rows,
                self.cols == before.cols,
                self.values@.len() == n,
                before.wf(),
                i <= n,
                forall|j: int| i <= j < n ==> #[trigger] self.values@[j] == before.values@[j],
                forall|j: int|
                    0 <= j < i ==> negate.ensures((before.values@[j],), #[trigger] self.values@[j]),
            decreases n - i,
        {
            let v = negate(self.values[i]);
            self.values[i] = v;
            i = i + 1;
        }
    }

    /// Adds `other`, which must hold one entry per row, to every column in
    /// place: entry `(r, c)` becomes `plus(entry, other[r])`. A size mismatch
    /// leaves the matrix as it was.
    pub fn add_col<V: SimpleVector<T>, F: Fn(T, T) -> T>(&mut self, other: &V, plus: F) -> (res:
        Result<(), MatError>)
        requires
            old(self).wf(),
            other.valid(),
            forall|x: T, y: T| plus.requires((x, y)),
        ensures
            final(self).wf(),
            final(self).num_rows() == old(self).num_rows(),
            final(self).num_cols() == old(self).num_cols(),
            res is Ok <==> other.spec_size() == old(self).num_rows(),
            res is Err ==> res->Err_0.kind == MatErrorKind::SizeMismatch && final(self).entries()
                == old(self).entries(),
            res is Ok ==> forall|r: int, c: int|
                0 <= r < old(self).num_rows() && 0 <= c < old(self).num_cols() ==> plus.ensures(
                    (old(self).at(r, c), other.entry(r)),
                    #[trigger] final(self).at(r, c),
                ),
    {
        if other.size() != self.rows {
            return Err(MatError::size_mismatch());
        }
        let ghost before = *self;
        let mut c: usize = 0;
        while c < self.cols
            invariant
                forall|x: T, y: T| plus.requires((x, y)),
                other.valid(),
                other.spec_size() == self.num_rows(),
                before.wf(),
                self.wf(),
                self.num_rows() == before.num_rows(),
                self.num_cols() == before.num_cols(),
                c <= self.num_cols(),
                forall|i: int, j: int|
                    0 <= i < self.num_rows() && 0 <= j < self.num_cols() && j >= c ==> #[trigger] self.at(i, j)
                        == before.at(i, j),
                forall|i: int, j: int|
                    0 <= i < self.num_rows() && 0 <= j < c ==> plus.ensures(
                        (before.at(i, j), other.entry(i)),
                        #[trigger] self.at(i, j),
                    ),
            decreases self.cols - c,
        {
            let mut r: usize = 0;
            while r < self.rows
                invariant
                    forall|x: T, y: T| plus.requires((x, y)),
                    other.valid(),
                    other.spec_size() == self.num_rows(),
                    before.wf(),
                    self.wf(),
                    self.num_rows() == before.num_rows(),
                    self.num_cols() == before.num_cols(),
                    c < self.num_cols(),
                    r <= self.num_rows(),
                    forall|i: int, j: int|
                        0 <= i < self.num_rows() && 0 <= j < self.num_cols() && (j > c || (j == c
                            && i >= r)) ==> #[trigger] self.at(i, j) == before.at(i, j),
                    forall|i: int, j: int|
                        0 <= i < self.num_rows() && 0 <= j < self.num_cols() && (j < c || (j == c
                            && i < r)) ==> plus.ensures(
                            (before.at(i, j), other.entry(i)),
                            #[trigger] self.at(i, j),
                        ),
                decreases self.rows - r,
            {
                proof {
                    lemma_cell_in_bounds(self.rows as int, self.cols as int, r as int, c as int);
                }
                let x = other.get(r);
                let y = match x {
                    Ok(y) => y,
                    Err(_) => {
                        proof {
                            assert(false);
                        }
                        return Err(MatError::size_mismatch());
                    },
                };
                let k: usize = c * self.rows + r;
                let sum = plus(self.values[k], y);
                let ghost prev = *self;
                self.values[k] = sum;
                proof {
                    assert forall|i: int, j: int|
                        0 <= i < self.num_rows() && 0 <= j < self.num_cols() implies #[trigger] self.at(i, j)
                        == if i == r && j == c {
                        sum
                    } else {
                        prev.at(i, j)
                    } by {
                        lemma_cell_in_bounds(self.rows as int, self.cols as int, i, j);
                        lemma_cell_distinct(self.rows as int, self.cols as int, i, j, r as int, c as int);
                    }
                    assert(prev.at(r as int, c as int) == before.at(r as int, c as int));
                    assert forall|i: int, j: int|
                        0 <= i < self.num_rows() && 0 <= j < self.num_cols() && (j < c || (j == c
                            && i < r + 1)) implies plus.ensures(
                        (before.at(i, j), other.entry(i)),
                        #[trigger] self.at(i, j),
                    ) by {
                        if !(i == r && j == c) {
                            assert(prev.at(i, j) == self.at(i, j));
                        }
                    }
                }
                r = r + 1;
            }
            c = c + 1;
        }
        Ok(())
    }

    /// Writes `v` at `(r, c)`.
    fn set_entry(&mut self, r: usize, c: usize, v: T)
        requires
            old(self).wf(),
            r < old(self).num_rows(),
            c < old(self).num_cols(),
        ensures
            final(self).wf(),
            final(self).num_rows() == old(self).num_rows(),
            final(self).num_cols() == old(self).num_cols(),
            forall|i: int, j: int|
                0 <= i < old(self).num_rows() && 0 <= j < old(self).num_cols() ==> #[trigger] final(self).at(i, j)
                    == if i == r && j == c {
                    v
                } else {
                    old(self).at(i, j)
                },
    {
        proof {
            lemma_cell_in_bounds(self.rows as int, self.cols as int, r as int, c as int);
        }
        let k: usize = c * self.rows + r;
        let ghost prev = *self;
        self.values[k] = v;
        proof {
            assert forall|i: int, j: int|
                0 <= i < prev.num_rows() && 0 <= j < prev.num_cols() implies #[trigger] self.at(i, j)
                == if i == r && j == c {
                v
            } else {
                prev.at(i, j)
            } by {
                lemma_cell_in_bounds(self.rows as int, self.cols as int, i, j);
                lemma_cell_distinct(self.rows as int, self.cols as int, i, j, r as int, c as int);
            }
        }
    }

    /// The matrix product `self * other`: entry `(r, c)` is the inner
    /// product of row `r` of `self` and column `c` of `other`, accumulated
    /// by `mul_add(acc, a, b)` from `zero`. A size mismatch unless `self` has
    /// as many columns as `other` has rows.
    pub fn dot<F: Fn(T, T, T) -> T>(&self, other: &Matrix<T>, zero: T, mul_add: F) -> (res: Result<
        Matrix<T>,
        MatError,
    >)
        requires
            self.wf(),
            other.wf(),
            self.num_rows() * other.num_cols() <= usize::MAX,
            forall|acc: T, a: T, b: T| mul_add.requires((acc, a, b)),
        ensures
            res is Ok <==> self.num_cols() == other.num_rows(),
            res is Err ==> res->Err_0.kind == MatErrorKind::SizeMismatch,
            res is Ok ==> {
                let m = res->Ok_0;
                &&& m.wf()
                &&& m.num_rows() == self.num_rows()
                &&& m.num_cols() == other.num_cols()
                &&& forall|r: int, c: int|
                    0 <= r < m.num_rows() && 0 <= c < m.num_cols() ==> inner_product_of(
                        mul_add,
                        zero,
                        self.row(r),
                        other.column(c),
                        #[trigger] m.at(r, c),
                    )
            },
    {
        if self.cols != other.rows {
            return Err(MatError::size_mismatch());
        }
        let mut res = Matrix::new(self.rows, other.cols, zero);
        let mut r: usize = 0;
        while r < self.rows
            invariant
                self.wf(),
                other.wf(),
                self.cols == other.rows,
                forall|acc: T, a: T, b: T| mul_add.requires((acc, a, b)),
                res.wf(),
                res.num_rows() == self.num_rows(),
                res.num_cols() == other.num_cols(),
                r <= self.num_rows(),
                forall|i: int, j: int|
                    0 <= i < r && 0 <= j < res.num_cols() ==> inner_product_of(
                        mul_add,
                        zero,
                        self.row(i),
                        other.column(j),
                        #[trigger] res.at(i, j),
                    ),
            decreases self.rows - r,
        {
            let mut c: usize = 0;
            while c < other.cols
                invariant
                    self.wf(),
                    other.wf(),
                    self.cols == other.rows,
                    forall|acc: T, a: T, b: T| mul_add.requires((acc, a, b)),
                    res.wf(),
                    res.num_rows() == self.num_rows(),
                    res.num_cols() == other.num_cols(),
                    r < self.num_rows(),
                    c <= other.num_cols(),
                    forall|i: int, j: int|
                        0 <= i < res.num_rows() && 0 <= j < res.num_cols() && (i < r || (i == r
                            && j < c)) ==> inner_product_of(
                            mul_add,
                            zero,
                            self.row(i),
                            other.column(j),
                            #[trigger] res.at(i, j),
                        ),
                decreases other.cols - c,
            {
                let mut acc = zero;
                let ghost mut chain: Seq<T> = seq![zero];
                let mut k: usize = 0;
                while k < self.cols
                    invariant
                        self.wf(),
                        other.wf(),
                        self.cols == other.rows,
                        forall|acc: T, a: T, b: T| mul_add.requires((acc, a, b)),
                        r < self.num_rows(),
                        c < other.num_cols(),
                        k <= self.num_cols(),
                        chain.len() == k + 1,
                        chain[0] == zero,
                        chain.last() == acc,
                        forall|q: int|
                            0 <= q < k ==> mul_add.ensures(
                                (chain[q], self.at(r as int, q), other.at(q, c as int)),
                                #[trigger] chain[q + 1],
                            ),
                    decreases self.cols - k,
                {
                    proof {
                        lemma_cell_in_bounds(self.rows as int, self.cols as int, r as int, k as int);
                        lemma_cell_in_bounds(other.rows as int, other.cols as int, k as int, c as int);
                    }
                    let a = self.values[k * self.rows + r];
                    let b = other.values[c * other.rows + k];
                    acc = mul_add(acc, a, b);
                    proof {
                        chain = chain.push(acc);
                    }
                    k = k + 1;
                }
                proof {
                    let ra = self.row(r as int);
                    let cb = other.column(c as int);
                    assert(is_product_chain(mul_add, zero, ra, cb, chain));
                }
                res.set_entry(r, c, acc);
                c = c + 1;
            }
            r = r + 1;
        }
        Ok(res)
    }

    /// The mean of each row, as a matrix with one column: the row's entries
    /// summed by `plus` from `zero`, then divided by the column count
    /// through `div`.
    pub fn mean_col<F: Fn(T, T) -> T, D: Fn(T, usize) -> T>(&self, zero: T, plus: F, div: D) -> (res:
        Matrix<T>)
        requires
            self.wf(),
            forall|x: T, y: T| plus.requires((x, y)),
            forall|x: T, n: usize| div.requires((x, n)),
        ensures
            res.wf(),
            res.num_rows() == self.num_rows(),
            res.num_cols() == 1,
            forall|r: int|
                0 <= r < self.num_rows() ==> mean_of(
                    plus,
                    div,
                    zero,
                    self.row(r),
                    self.num_cols() as usize,
                    #[trigger] res.at(r, 0),
                ),
    {
        let mut res = Matrix::new(self.rows, 1, zero);
        let mut r: usize = 0;
        while r < self.rows
            invariant
                self.wf(),
                forall|x: T, y: T| plus.requires((x, y)),
                forall|x: T, n: usize| div.requires((x, n)),
                res.wf(),
                res.num_rows() == self.num_rows(),
                res.num_cols() == 1,
                r <= self.num_rows(),
                forall|i: int|
                    0 <= i < r ==> mean_of(
                        plus,
                        div,
                        zero,
                        self.row(i),
                        self.num_cols() as usize,
                        #[trigger] res.at(i, 0),
                    ),
            decreases self.rows - r,
        {
            let mut acc = zero;
            let ghost mut chain: Seq<T> = seq![zero];
            let mut c: usize = 0;
            while c < self.cols
                invariant
                    self.wf(),
                    forall|x: T, y: T| plus.requires((x, y)),
                    r < self.num_rows(),
                    c <= self.num_cols(),
                    chain.len() == c + 1,
                    chain[0] == zero,
                    chain.last() == acc,
                    forall|q: int|
                        0 <= q < c ==> plus.ensures((chain[q], self.at(r as int, q)), #[trigger] chain[q + 1]),
                decreases self.cols - c,
            {
                proof {
                    lemma_cell_in_bounds(self.rows as int, self.cols as int, r as int, c as int);
                }
                acc = plus(acc, self.values[c * self.rows + r]);
                proof {
                    chain = chain.push(acc);
                }
                c = c + 1;
            }
            let m = div(acc, self.cols);
            proof {
                assert(is_chain(plus, zero, self.row(r as int), chain));
            }
            let ghost prev = res;
            res.set_entry(r, 0, m);
            proof {
                assert forall|i: int| 0 <= i < r + 1 implies mean_of(
                    plus,
                    div,
                    zero,
                    self.row(i),
                    self.num_cols() as usize,
                    #[trigger] res.at(i, 0),
                ) by {
                    if i < r {
                        assert(res.at(i, 0) == prev.at(i, 0));
                    }
                }
            }
            r = r + 1;
        }
        res
    }

    /// The mean of each column, as a matrix with one row: the column's
    /// entries summed by `plus` from `zero`, then divided by the row count
    /// through `div`.
    pub fn mean_row<F: Fn(T, T) -> T, D: Fn(T, usize) -> T>(&self, zero: T, plus: F, div: D) -> (res:
        Matrix<T>)
        requires
            self.wf(),
            forall|x: T, y: T| plus.requires((x, y)),
            forall|x: T, n: usize| div.requires((x, n)),
        ensures
            res.wf(),
            res.num_rows() == 1,
            res.num_cols() == self.num_cols(),
            forall|c: int|
                0 <= c < self.num_cols() ==> mean_of(
                    plus,
                    div,
                    zero,
                    self.column(c),
                    self.num_rows() as usize,
                    #[trigger] res.at(0, c),
                ),
    {
        let mut res = Matrix::new(1, self.cols, zero);
        let mut c: usize = 0;
        while c < self.cols
            invariant
                self.wf(),
                forall|x: T, y: T| plus.requires((x, y)),
                forall|x: T, n: usize| div.requires((x, n)),
                res.wf(),
                res.num_rows() == 1,
                res.num_cols() == self.num_cols(),
                c <= self.num_cols(),
                forall|j: int|
                    0 <= j < c ==> mean_of(
                        plus,
                        div,
                        zero,
                        self.column(j),
                        self.num_rows() as usize,
                        #[trigger] res.at(0, j),
                    ),
            decreases self.cols - c,
        {
            let mut acc = zero;
            let ghost mut chain: Seq<T> = seq![zero];
            let mut r: usize = 0;
            while r < self.rows
                invariant
                    self.wf(),
                    forall|x: T, y: T| plus.requires((x, y)),
                    c < self.num_cols(),
                    r <= self.num_rows(),
                    chain.len() == r + 1,
                    chain[0] == zero,
                    chain.last() == acc,
                    forall|q: int|
                        0 <= q < r ==> plus.ensures((chain[q], self.at(q, c as int)), #[trigger] chain[q + 1]),
                decreases self.rows - r,
            {
                proof {
                    lemma_cell_in_bounds(self.rows as int, self.cols as int, r as int, c as int);
                }
                acc = plus(acc, self.values[c * self.rows + r]);
                proof {
                    chain = chain.push(acc);
                }
                r = r + 1;
            }
            let m = div(acc, self.rows);
            proof {
                assert(is_chain(plus, zero, self.column(c as int), chain));
            }
            let ghost prev = res;
            res.set_entry(0, c, m);
            proof {
                assert forall|j: int| 0 <= j < c + 1 implies mean_of(
                    plus,
                    div,
                    zero,
                    self.column(j),
                    self.num_rows() as usize,
                    #[trigger] res.at(0, j),
                ) by {
                    if j < c {
                        assert(res.at(0, j) == prev.at(0, j));
                    }
                }
            }
            c = c + 1;
        }
        res
    }

    /// A copy of column `c`.
    pub fn get_column(&self, c: usize) -> (v: Vec<T>)
        requires
            self.wf(),
            c < self.num_cols(),
        ensures
            v@ == self.column(c as int),
    {
        let mut v: Vec<T> = Vec::with_capacity(self.rows);
        let mut r: usize = 0;
        while r < self.rows
            invariant
                self.wf(),
                c < self.num_cols(),
                r <= self.num_rows(),
                v@ == self.column(c as int).take(r as int),
            decreases self.rows - r,
        {
            proof {
                lemma_cell_in_bounds(self.rows as int, self.cols as int, r as int, c as int);
            }
            v.push(self.values[c * self.rows + r]);
            r = r + 1;
            assert(v@ =~= self.column(c as int).take(r as int));
        }
        assert(v@ =~= self.column(c as int));
        v
    }

    /// A copy of row `r`.
    pub fn get_row(&self, r: usize) -> (v: Vec<T>)
        requires
            self.wf(),
            r < self.num_rows(),
        ensures
            v@ == self.row(r as int),
    {
        let mut v: Vec<T> = Vec::with_capacity(self.cols);
        let mut c: usize = 0;
        while c < self.cols
            invariant
                self.wf(),
                r < self.num_rows(),
                c <= self.num_cols(),
                v@ == self.row(r as int).take(c as int),
            decreases self.cols - c,
        {
            proof {
                lemma_cell_in_bounds(self.rows as int, self.cols as int, r as int, c as int);
            }
            v.push(self.values[c * self.rows + r]);
            c = c + 1;
            assert(v@ =~= self.row(r as int).take(c as int));
        }
        assert(v@ =~= self.row(r as int));
        v
    }

    /// Overwrites row `r` with `values`, which must hold one entry per column.
    pub fn set_row(&mut self, r: usize, values: &[T]) -> (res: Result<(), MatError>)
        requires
            old(self).wf(),
        ensures
            final(self).wf(),
            final(self).num_rows() == old(self).num_rows(),
            final(self).num_cols() == old(self).num_cols(),
            r >= old(self).num_rows() ==> res is Err && res->Err_0.kind
                == MatErrorKind::IndexOutOfBounds && final(self).entries() == old(self).entries(),
            r < old(self).num_rows() && values@.len() != old(self).num_cols() ==> res is Err
                && res->Err_0.kind == MatErrorKind::SizeMismatch && final(self).entries() == old(self).entries(),
            r < old(self).num_rows() && values@.len() == old(self).num_cols() ==> res is Ok,
            res is Ok ==> forall|i: int, j: int|
                0 <= i < old(self).num_rows() && 0 <= j < old(self).num_cols() ==> #[trigger] final(self).at(i, j) == if i == r {
                    values@[j]
                } else {
                    old(self).at(i, j)
                },
    {
        if r >= self.rows {
            return Err(MatError::index_error());
        }
        if values.len() != self.cols {
            return Err(MatError::size_mismatch());
        }
        let ghost before = *self;
        let mut c: usize = 0;
        while c < self.cols
            invariant
                self.wf(),
                before.wf(),
                self.num_rows() == before.num_rows(),
                self.num_cols() == before.num_cols(),
                r < self.num_rows(),
                values@.len() == self.num_cols(),
                c <= self.num_cols(),
                forall|i: int, j: int|
                    0 <= i < self.num_rows() && 0 <= j < self.num_cols() ==> #[trigger] self.at(i, j) == if i == r && j < c {
                        values@[j]
                    } else {
                        before.at(i, j)
                    },
            decreases self.cols - c,
        {
            proof {
                lemma_cell_in_bounds(self.rows as int, self.cols as int, r as int, c as int);
            }
            let k: usize = c * self.rows + r;
            let ghost prev = *self;
            self.values[k] = values[c];
            proof {
                assert(self.values@ == prev.values@.update(k as int, values@[c as int]));
                assert forall|i: int, j: int|
                    0 <= i < self.num_rows() && 0 <= j < self.num_cols() implies #[trigger] self.at(i, j) == if i == r && j < c + 1 {
                        values@[j]
                    } else {
                        before.at(i, j)
                    } by {
                    lemma_cell_in_bounds(self.rows as int, self.cols as int, i, j);
                    lemma_cell_distinct(self.rows as int, self.cols as int, i, j, r as int, c as int);
                    assert(prev.at(i, j) == if i == r && j < c {
                        values@[j]
                    } else {
                        before.at(i, j)
                    });
                }
            }
            c = c + 1;
        }
        Ok(())
    }

    /// Overwrites column `c` with `values`, which must hold one entry per row.
    pub fn set_column(&mut self, c: usize, values: &[T]) -> (res: Result<(), MatError>)
        requires
            old(self).wf(),
        ensures
            final(self).wf(),
            final(self).num_rows() == old(self).num_rows(),
            final(self).num_cols() == old(self).num_cols(),
            c >= old(self).num_cols() ==> res is Err && res->Err_0.kind
                == MatErrorKind::IndexOutOfBounds && final(self).entries() == old(self).entries(),
            c < old(self).num_cols() && values@.len() != old(self).num_rows() ==> res is Err
                && res->Err_0.kind == MatErrorKind::SizeMismatch && final(self).entries() == old(self).entries(),
            c < old(self).num_cols() && values@.len() == old(self).num_rows() ==> res is Ok,
            res is Ok ==> forall|i: int, j: int|
                0 <= i < old(self).num_rows() && 0 <= j < old(self).num_cols() ==> #[trigger] final(self).at(i, j) == if j == c {
                    values@[i]
                } else {
                    old(self).at(i, j)
                },
    {
        if c >= self.cols {
            return Err(MatError::index_error());
        }
        if values.len() != self.rows {
            return Err(MatError::size_mismatch());
        }
        let ghost before = *self;
        let mut r: usize = 0;
        while r < self.rows
            invariant
                self.wf(),
                before.wf(),
                self.num_rows() == before.num_rows(),
                self.num_cols() == before.num_cols(),
                c < self.num_cols(),
                values@.len() == self.num_rows(),
                r <= self.num_rows(),
                forall|i: int, j: int|
                    0 <= i < self.num_rows() && 0 <= j < self.num_cols() ==> #[trigger] self.at(i, j) == if j == c && i < r {
                        values@[i]
                    } else {
                        before.at(i, j)
                    },
            decreases self.rows - r,
        {
            proof {
                lemma_cell_in_bounds(self.rows as int, self.cols as int, r as int, c as int);
            }
            let k: usize = c * self.rows + r;
            let ghost prev = *self;
            self.values[k] = values[r];
            proof {
                assert(self.values@ == prev.values@.update(k as int, values@[r as int]));
                assert forall|i: int, j: int|
                    0 <= i < self.num_rows() && 0 <= j < self.num_cols() implies #[trigger] self.at(i, j) == if j == c && i < r + 1 {
                        values@[i]
                    } else {
                        before.at(i, j)
                    } by {
                    lemma_cell_in_bounds(self.rows as int, self.cols as int, i, j);
                    lemma_cell_distinct(self.rows as int, self.cols as int, i, j, r as int, c as int);
                    assert(prev.at(i, j) == if j == c && i < r {
                        values@[i]
                    } else {
                        before.at(i, j)
                    });
                }
            }
            r = r + 1;
        }
        Ok(())
    }
}

/// A sequence of entries that can be read by position, such as a vector or
/// a matrix read down its first column.
pub trait SimpleVector<T> {
    /// The value is usable.
    spec fn valid(&self) -> bool;

    spec fn spec_size(&self) -> nat;

    /// Entry `i`.
    spec fn entry(&self, i: int) -> T;

    fn size(&self) -> (n: usize)
        requires
            self.valid(),
        ensures
            n == self.spec_size(),
    ;

    /// Entry `i`, or an index error past the end.
    fn get(&self, i: usize) -> (res: Result<T, MatError>)
        requires
            self.valid(),
        ensures
            i < self.spec_size() ==> res == Ok::<T, MatError>(self.entry(i as int)),
            i >= self.spec_size() ==> res is Err && res->Err_0.kind == MatErrorKind::IndexOutOfBounds,
    ;
}

impl<T: Copy> SimpleVector<T> for Vec<T> {
    open spec fn valid(&self) -> bool {
        true
    }

    open spec fn spec_size(&self) -> nat {
        self@.len()
    }

    open spec fn entry(&self, i: int) -> T {
        self@[i]
    }

    fn size(&self) -> (n: usize) {
        self.len()
    }

    fn get(&self, i: usize) -> (res: Result<T, MatError>) {
        if i < self.len() {
            Ok(self[i])
        } else {
            Err(MatError::index_error())
        }
    }
}

impl<T: Copy> SimpleVector<T> for Matrix<T> {
    /// Read as a vector, a matrix needs a first column.
    open spec fn valid(&self) -> bool {
        self.wf() && self.num_cols() >= 1
    }

    open spec fn spec_size(&self) -> nat {
        self.num_rows()
    }

    open spec fn entry(&self, i: int) -> T {
        self.at(i, 0)
    }

    fn size(&self) -> (n: usize) {
        self.rows()
    }

    fn get(&self, i: usize) -> (res: Result<T, MatError>) {
        if i < self.rows() {
            Matrix::get(self, i, 0)
        } else {
            Err(MatError::index_error())
        }
    }
}

} // verus!
