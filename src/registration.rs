use vstd::prelude::*;

use crate::matrix::{MatError, MatErrorKind, Matrix};

verus! {

/// Why a registration run failed.
#[derive(Clone, Copy, Debug, PartialEq, Eq, Structural)]
pub enum IcpErrorKind {
    /// An empty cloud, no iterations allowed, or a negative tolerance.
    InvalidArgument,
    /// A spatial index was requested over no points.
    EmptyInput,
    /// A nearest-neighbour query against a non-empty index gave no usable answer.
    InternalInvariantViolation,
}

/// Error of a registration run.
#[derive(Clone, Debug)]
pub struct ICPError {
    pub kind: IcpErrorKind,
    pub msg: String,
}

impl ICPError {
    pub fn invalid_argument() -> (e: ICPError)
        ensures
            e.kind == IcpErrorKind::InvalidArgument,
    {
        ICPError { kind: IcpErrorKind::InvalidArgument, msg: String::from_str("Invalid argument.") }
    }

    pub fn empty_input() -> (e: ICPError)
        ensures
            e.kind == IcpErrorKind::EmptyInput,
    {
        ICPError { kind: IcpErrorKind::EmptyInput, msg: String::from_str("Empty input.") }
    }

    pub fn internal() -> (e: ICPError)
        ensures
            e.kind == IcpErrorKind::InternalInvariantViolation,
    {
        ICPError {
            kind: IcpErrorKind::InternalInvariantViolation,
            msg: String::from_str("Nearest-neighbour query failed."),
        }
    }

    /// The error's text.
    pub fn message(&self) -> (s: String)
        ensures
            s@ == self.msg@,
    {
        self.msg.clone()
    }
}

/// Where a registration run stands.
#[derive(Clone, Copy, Debug, PartialEq, Eq, Structural)]
pub enum Status {
    Iterating,
    /// Two consecutive errors differed by less than the tolerance.
    Converged,
    /// The iteration budget ran out; the transform found so far still stands.
    MaxIterationsReached,
}

/// What the caller does after reporting an iteration's error.
#[derive(Clone, Copy, Debug, PartialEq, Eq, Structural)]
pub enum Action {
    /// Estimate the best rigid transform for the current correspondences,
    /// compose it onto the accumulated one and apply it to the working points.
    Refine,
    /// Stop and return the accumulated transform.
    Stop,
}

/// The iteration bookkeeping of one registration run: how many
/// correspondence rounds ran, out of how many allowed, and the state reached.
pub struct IcpRun {
    max_iterations: usize,
    iterations: usize,
    status: Status,
}

/// The arguments that a run accepts.
pub open spec fn valid_arguments(
    fixed_cols: nat,
    moving_cols: nat,
    max_iterations: nat,
    tolerance_nonnegative: bool,
) -> bool {
    fixed_cols > 0 && moving_cols > 0 && max_iterations >= 1 && tolerance_nonnegative
}

/// The status after round `n` (counted from 1) of a run allowed `max`
/// rounds, given whether the error moved by less than the tolerance.
pub open spec fn status_after(n: nat, max: nat, within_tolerance: bool) -> Status {
    if n > 1 && within_tolerance {
        Status::Converged
    } else if n >= max {
        Status::MaxIterationsReached
    } else {
        Status::Iterating
    }
}

impl IcpRun {
    pub closed spec fn spec_max_iterations(&self) -> nat {
        self.max_iterations as nat
    }

    pub closed spec fn spec_iterations(&self) -> nat {
        self.iterations as nat
    }

    pub closed spec fn spec_status(&self) -> Status {
        self.status
    }

    /// A run that is still iterating has rounds left.
    pub closed spec fn wf(&self) -> bool {
        &&& self.iterations <= self.max_iterations
        &&& self.status == Status::Iterating ==> self.iterations < self.max_iterations
    }

    /// Checks the arguments of a run before any work is done: both clouds
    /// hold points, at least one iteration is allowed and the tolerance is
    /// not negative.
    pub fn start(
        fixed_cols: usize,
        moving_cols: usize,
        max_iterations: usize,
        tolerance_nonnegative: bool,
    ) -> (res: Result<IcpRun, ICPError>)
        ensures
            valid_arguments(
                fixed_cols as nat,
                moving_cols as nat,
                max_iterations as nat,
                tolerance_nonnegative,
            ) <==> res is Ok,
            res is Ok ==> {
                let run = res->Ok_0;
                &&& run.wf()
                &&& run.spec_iterations() == 0
                &&& run.spec_max_iterations() == max_iterations
                &&& run.spec_status() == Status::Iterating
            },
            res is Err ==> res->Err_0.kind == IcpErrorKind::InvalidArgument,
    {
        if fixed_cols == 0 || moving_cols == 0 || max_iterations == 0 || !tolerance_nonnegative {
            return Err(ICPError::invalid_argument());
        }
        Ok(IcpRun { max_iterations, iterations: 0, status: Status::Iterating })
    }

    pub fn iterations(&self) -> (n: usize)
        ensures
            n == self.spec_iterations(),
    {
        self.iterations
    }

    pub fn max_iterations(&self) -> (n: usize)
        ensures
            n == self.spec_max_iterations(),
    {
        self.max_iterations
    }

    pub fn status(&self) -> (s: Status)
        ensures
            s == self.spec_status(),
    {
        self.status
    }

    /// Whether another correspondence round is due.
    pub fn is_running(&self) -> (b: bool)
        ensures
            b == (self.spec_status() == Status::Iterating),
    {
        match self.status {
            Status::Iterating => true,
            _ => false,
        }
    }

    /// Records that a correspondence round has run and decides what follows.
    /// `within_tolerance` says whether this round's mean error differs from
    /// the previous round's by less than the tolerance; it is ignored on the
    /// first round, which has no predecessor. A round that does not converge
    /// is followed by a refinement; when it was the last allowed one, the run
    /// ends after that refinement.
    pub fn record_error(&mut self, within_tolerance: bool) -> (a: Action)
        requires
            old(self).wf(),
            old(self).spec_status() == Status::Iterating,
        ensures
            final(self).wf(),
            final(self).spec_max_iterations() == old(self).spec_max_iterations(),
            final(self).spec_iterations() == old(self).spec_iterations() + 1,
            final(self).spec_status() == status_after(
                final(self).spec_iterations(),
                final(self).spec_max_iterations(),
                within_tolerance,
            ),
            a == (if final(self).spec_status() == Status::Converged {
                Action::Stop
            } else {
                Action::Refine
            }),
    {
        self.iterations = self.iterations + 1;
        if self.iterations > 1 && within_tolerance {
            self.status = Status::Converged;
            Action::Stop
        } else {
            if self.iterations >= self.max_iterations {
                self.status = Status::MaxIterationsReached;
            }
            Action::Refine
        }
    }
}

/// A run allowed at least two rounds, whose second round's error moved by
/// less than the tolerance, goes on after its first round and stops after
/// exactly two, converged.
pub proof fn lemma_converges_after_two_rounds(max_iterations: nat, first_within_tolerance: bool)
    requires
        max_iterations >= 2,
    ensures
        status_after(1, max_iterations, first_within_tolerance) == Status::Iterating,
        status_after(2, max_iterations, true) == Status::Converged,
{
}

/// Turns the answer of a nearest-neighbour query against an index over
/// `fixed_cols` points into a column of the fixed cloud: no answer, or an
/// identifier that names no column, is an internal invariant violation.
pub fn check_match(found: Option<usize>, fixed_cols: usize) -> (res: Result<usize, ICPError>)
    ensures
        (found is Some && found->Some_0 < fixed_cols) <==> res is Ok,
        res is Ok ==> res->Ok_0 == found->Some_0,
        res is Err ==> res->Err_0.kind == IcpErrorKind::InternalInvariantViolation,
{
    match found {
        Some(id) => {
            if id < fixed_cols {
                Ok(id)
            } else {
                Err(ICPError::internal())
            }
        },
        None => Err(ICPError::internal()),
    }
}

/// The matched subset of a cloud: column `j` of the result is column
/// `ids[j]` of `source`.
pub fn gather_columns<T: Copy>(source: &Matrix<T>, ids: &Vec<usize>) -> (res: Matrix<T>)
    requires
        source.wf(),
        forall|j: int| 0 <= j < ids@.len() ==> ids@[j] < source.num_cols(),
        source.num_rows() * ids@.len() <= usize::MAX,
    ensures
        res.wf(),
        res.num_rows() == source.num_rows(),
        res.num_cols() == ids@.len(),
        forall|r: int, j: int|
            0 <= r < res.num_rows() && 0 <= j < res.num_cols() ==> #[trigger] res.at(r, j)
                == source.at(r, ids@[j] as int),
{
    let rows = source.rows();
    let k = ids.len();
    if rows == 0 || k == 0 {
        proof {
            assert(rows * k == 0) by (nonlinear_arith)
                requires
                    rows == 0 || k == 0,
            ;
        }
        let empty: Vec<T> = Vec::new();
        let res = Matrix::from_column_major(rows, k, empty);
        return match res {
            Ok(m) => m,
            Err(_) => {
                proof {
                    assert(false);
                }
                Matrix::new(rows, k, source.get_column(ids[0])[0])
            },
        };
    }
    let first = source.get_column(ids[0]);
    let mut res = Matrix::new(rows, k, first[0]);
    let mut j: usize = 0;
    while j < k
        invariant
            source.wf(),
            k == ids@.len(),
            rows == source.num_rows(),
            forall|jj: int| 0 <= jj < ids@.len() ==> ids@[jj] < source.num_cols(),
            res.wf(),
            res.num_rows() == rows,
            res.num_cols() == k,
            j <= k,
            forall|r: int, jj: int|
                0 <= r < rows && 0 <= jj < j ==> #[trigger] res.at(r, jj) == source.at(
                    r,
                    ids@[jj] as int,
                ),
        decreases k - j,
    {
        let col = source.get_column(ids[j]);
        let ghost prev = res;
        let done = res.set_column(j, col.as_slice());
        assert(done is Ok);
        assert forall|r: int, jj: int| 0 <= r < rows && 0 <= jj < j + 1 implies #[trigger] res.at(
            r,
            jj,
        ) == source.at(r, ids@[jj] as int) by {
            if jj < j {
                assert(prev.at(r, jj) == source.at(r, ids@[jj] as int));
            }
        }
        j = j + 1;
    }
    res
}

/// Homogeneous coordinates of the points of `m`: its rows, followed by a
/// row holding `one` in every column.
pub fn homogeneous<T: Copy>(m: &Matrix<T>, one: T) -> (res: Matrix<T>)
    requires
        m.wf(),
        m.num_rows() + 1 <= usize::MAX,
        (m.num_rows() + 1) * m.num_cols() <= usize::MAX,
    ensures
        res.wf(),
        res.num_rows() == m.num_rows() + 1,
        res.num_cols() == m.num_cols(),
        forall|r: int, c: int|
            0 <= r < res.num_rows() && 0 <= c < res.num_cols() ==> #[trigger] res.at(r, c) == if r
                < m.num_rows() {
                m.at(r, c)
            } else {
                one
            },
{
    let rows = m.rows();
    let cols = m.cols();
    let mut res = Matrix::new(rows + 1, cols, one);
    let mut i: usize = 0;
    while i < rows
        invariant
            m.wf(),
            rows == m.num_rows(),
            cols == m.num_cols(),
            res.wf(),
            res.num_rows() == rows + 1,
            res.num_cols() == cols,
            i <= rows,
            forall|r: int, c: int|
                0 <= r < rows + 1 && 0 <= c < cols ==> #[trigger] res.at(r, c) == if r < i {
                    m.at(r, c)
                } else {
                    one
                },
        decreases rows - i,
    {
        let row = m.get_row(i);
        let ghost prev = res;
        let done = res.set_row(i, row.as_slice());
        assert(done is Ok);
        assert forall|r: int, c: int| 0 <= r < rows + 1 && 0 <= c < cols implies #[trigger] res.at(
            r,
            c,
        ) == if r < i + 1 {
            m.at(r, c)
        } else {
            one
        } by {
            assert(prev.at(r, c) == if r < i {
                m.at(r, c)
            } else {
                one
            });
        }
        i = i + 1;
    }
    res
}

/// The entries of the homogeneous rigid transform with rotation block
/// `rotation` and translation `translation`: `[[R, t], [0, 0, 0, 1]]`.
pub open spec fn rigid_entry<T: Copy>(rotation: Matrix<T>, translation: Seq<T>, zero: T, one: T, r: int, c: int) -> T
    recommends
        rotation.num_rows() == 3,
        rotation.num_cols() == 3,
        translation.len() == 3,
{
    if r < 3 && c < 3 {
        rotation.at(r, c)
    } else if r < 3 {
        translation[r]
    } else if c < 3 {
        zero
    } else {
        one
    }
}

/// Assembles the 4 by 4 homogeneous transform `[[R, t], [0, 0, 0, 1]]` from
/// a 3 by 3 rotation block and a translation of length 3; a size mismatch
/// when either has another shape.
pub fn rigid_transform<T: Copy>(rotation: &Matrix<T>, translation: &[T], zero: T, one: T) -> (res:
    Result<Matrix<T>, MatError>)
    requires
        rotation.wf(),
    ensures
        res is Ok <==> (rotation.num_rows() == 3 && rotation.num_cols() == 3 && translation@.len()
            == 3),
        res is Err ==> res->Err_0.kind == MatErrorKind::SizeMismatch,
        res is Ok ==> {
            let m = res->Ok_0;
            &&& m.wf()
            &&& m.num_rows() == 4
            &&& m.num_cols() == 4
            &&& forall|r: int, c: int|
                0 <= r < 4 && 0 <= c < 4 ==> #[trigger] m.at(r, c) == rigid_entry(
                    *rotation,
                    translation@,
                    zero,
                    one,
                    r,
                    c,
                )
        },
{
    if rotation.rows() != 3 || rotation.cols() != 3 || translation.len() != 3 {
        return Err(MatError::size_mismatch());
    }
    let mut m = Matrix::new(4, 4, zero);
    let mut c: usize = 0;
    while c < 3
        invariant
            rotation.wf(),
            rotation.num_rows() == 3,
            rotation.num_cols() == 3,
            translation@.len() == 3,
            m.wf(),
            m.num_rows() == 4,
            m.num_cols() == 4,
            c <= 3,
            forall|i: int, j: int|
                0 <= i < 4 && 0 <= j < 4 ==> #[trigger] m.at(i, j) == if i < 3 && j < c {
                    rotation.at(i, j)
                } else {
                    zero
                },
        decreases 3 - c,
    {
        let mut col = rotation.get_column(c);
        col.push(zero);
        let ghost prev = m;
        let done = m.set_column(c, col.as_slice());
        assert(done is Ok);
        assert forall|i: int, j: int| 0 <= i < 4 && 0 <= j < 4 implies #[trigger] m.at(i, j) == if i
            < 3 && j < c + 1 {
            rotation.at(i, j)
        } else {
            zero
        } by {
            assert(prev.at(i, j) == if i < 3 && j < c {
                rotation.at(i, j)
            } else {
                zero
            });
        }
        c = c + 1;
    }
    let last: [T; 4] = [translation[0], translation[1], translation[2], one];
    let ghost prev = m;
    let done = m.set_column(3, last.as_slice());
    assert(done is Ok);
    assert forall|i: int, j: int| 0 <= i < 4 && 0 <= j < 4 implies #[trigger] m.at(i, j)
        == rigid_entry(*rotation, translation@, zero, one, i, j) by {
        assert(prev.at(i, j) == if i < 3 && j < 3 {
            rotation.at(i, j)
        } else {
            zero
        });
    }
    Ok(m)
}

/// A spatial index needs at least one point.
pub fn check_index_points(n: usize) -> (res: Result<(), ICPError>)
    ensures
        res is Ok <==> n > 0,
        res is Err ==> res->Err_0.kind == IcpErrorKind::EmptyInput,
{
    if n == 0 {
        Err(ICPError::empty_input())
    } else {
        Ok(())
    }
}

} // verus!
