//! An instance of the single-row facility layout problem.

use vstd::prelude::*;

verus! {

/// Departments to be placed in one row: how long each is, and how much
/// flows between each two of them.
#[derive(Debug, Clone, PartialEq, Eq)]
pub struct SrflpInstance {
    /// The number of departments.
    pub nb_departments: usize,
    /// The length of each department.
    pub lengths: Vec<isize>,
    /// The flow between each two departments.
    pub flows: Vec<Vec<isize>>,
}

/// What an instance is, as plain mathematics.
pub struct InstanceModel {
    /// The number of departments.
    pub nb_departments: nat,
    /// The length of each department.
    pub lengths: Seq<isize>,
    /// The rows of the flow matrix.
    pub flows: Seq<Seq<isize>>,
}

/// The rows of a matrix as sequences.
pub open spec fn rows_of(matrix: Seq<Vec<isize>>) -> Seq<Seq<isize>> {
    Seq::new(matrix.len(), |i: int| matrix[i]@)
}

impl View for SrflpInstance {
    type V = InstanceModel;

    open spec fn view(&self) -> InstanceModel {
        InstanceModel {
            nb_departments: self.nb_departments as nat,
            lengths: self.lengths@,
            flows: rows_of(self.flows@),
        }
    }
}

/// `matrix` has `n` rows of `n` entries.
pub open spec fn is_square(matrix: Seq<Seq<isize>>, n: nat) -> bool {
    &&& matrix.len() == n
    &&& forall|i: int| 0 <= i < matrix.len() ==> (#[trigger] matrix[i]).len() == n
}

/// The diagonal of the square `matrix` is zero.
pub open spec fn has_zero_diagonal(matrix: Seq<Seq<isize>>) -> bool {
    forall|i: int| 0 <= i < matrix.len() ==> (#[trigger] matrix[i])[i] == 0
}

/// No entry of the square `matrix` is negative.
pub open spec fn is_nonnegative(matrix: Seq<Seq<isize>>) -> bool {
    forall|i: int, j: int|
        0 <= i < matrix.len() && 0 <= j < matrix.len() ==> #[trigger] matrix[i][j] >= 0
}

/// The square `matrix` equals its transpose.
pub open spec fn is_symmetric(matrix: Seq<Seq<isize>>) -> bool {
    forall|i: int, j: int|
        0 <= i < matrix.len() && 0 <= j < matrix.len() ==> #[trigger] matrix[i][j]
            == #[trigger] matrix[j][i]
}

/// Why an instance is refused.
#[derive(Debug, Clone, Copy, PartialEq, Eq)]
pub enum InstanceError {
    /// There is not one length for each department.
    LengthCount,
    /// The flows are not one row for each department, each with one entry
    /// for each department.
    NotSquare,
    /// A department has a flow to itself.
    Diagonal,
    /// A flow is negative.
    NegativeFlow,
    /// A flow is not the same in both directions.
    Asymmetric,
}

impl InstanceModel {
    /// The first rule that the instance breaks, if it breaks one.
    pub open spec fn defect(self) -> Option<InstanceError> {
        if self.lengths.len() != self.nb_departments {
            Some(InstanceError::LengthCount)
        } else if !is_square(self.flows, self.nb_departments) {
            Some(InstanceError::NotSquare)
        } else if !has_zero_diagonal(self.flows) {
            Some(InstanceError::Diagonal)
        } else if !is_nonnegative(self.flows) {
            Some(InstanceError::NegativeFlow)
        } else if !is_symmetric(self.flows) {
            Some(InstanceError::Asymmetric)
        } else {
            None
        }
    }

    /// One length for each department, and a square, symmetric flow matrix
    /// without negative entries and with a zero diagonal.
    pub open spec fn is_valid(self) -> bool {
        &&& self.lengths.len() == self.nb_departments
        &&& is_square(self.flows, self.nb_departments)
        &&& has_zero_diagonal(self.flows)
        &&& is_nonnegative(self.flows)
        &&& is_symmetric(self.flows)
    }
}

impl SrflpInstance {
    /// Accepts the instance if it is valid, and names the first rule that it
    /// breaks if it is not.
    pub fn validate(&self) -> (r: Result<(), InstanceError>)
        ensures
            r is Ok <==> self@.is_valid(),
            match r {
                Ok(_) => self@.defect() is None,
                Err(e) => self@.defect() == Some(e),
            },
    {
        let n = self.nb_departments;
        if self.lengths.len() != n {
            return Err(InstanceError::LengthCount);
        }
        if !self.has_square_flows() {
            return Err(InstanceError::NotSquare);
        }
        if !self.has_zero_diagonal() {
            return Err(InstanceError::Diagonal);
        }
        if !self.has_nonnegative_flows() {
            return Err(InstanceError::NegativeFlow);
        }
        if !self.has_symmetric_flows() {
            return Err(InstanceError::Asymmetric);
        }
        Ok(())
    }

    /// Whether the flows are `nb_departments` rows of `nb_departments` entries.
    fn has_square_flows(&self) -> (b: bool)
        ensures
            b == is_square(self@.flows, self@.nb_departments),
    {
        let n = self.nb_departments;
        if self.flows.len() != n {
            return false;
        }
        let mut i: usize = 0;
        while i < n
            invariant
                i <= n,
                n == self.nb_departments,
                self.flows@.len() == n,
                forall|k: int| 0 <= k < i ==> (#[trigger] self@.flows[k]).len() == n,
            decreases n - i,
        {
            if self.flows[i].len() != n {
                assert(self@.flows[i as int].len() != n);
                return false;
            }
            i += 1;
        }
        true
    }

    /// Whether no department has a flow to itself.
    fn has_zero_diagonal(&self) -> (b: bool)
        requires
            is_square(self@.flows, self@.nb_departments),
        ensures
            b == has_zero_diagonal(self@.flows),
    {
        let n = self.nb_departments;
        let mut i: usize = 0;
        while i < n
            invariant
                i <= n,
                n == self.nb_departments,
                is_square(self@.flows, self@.nb_departments),
                forall|k: int| 0 <= k < i ==> (#[trigger] self@.flows[k])[k] == 0,
            decreases n - i,
        {
            assert(self@.flows[i as int].len() == n);
            if self.flows[i][i] != 0 {
                assert(self@.flows[i as int][i as int] != 0);
                return false;
            }
            i += 1;
        }
        true
    }

    /// Whether no flow is negative.
    fn has_nonnegative_flows(&self) -> (b: bool)
        requires
            is_square(self@.flows, self@.nb_departments),
        ensures
            b == is_nonnegative(self@.flows),
    {
        let n = self.nb_departments;
        let mut i: usize = 0;
        while i < n
            invariant
                i <= n,
                n == self.nb_departments,
                is_square(self@.flows, self@.nb_departments),
                forall|k: int, j: int| 0 <= k < i && 0 <= j < n ==> #[trigger] self@.flows[k][j] >= 0,
            decreases n - i,
        {
            assert(self@.flows[i as int].len() == n);
            let mut j: usize = 0;
            while j < n
                invariant
                    i < n,
                    j <= n,
                    n == self.nb_departments,
                    is_square(self@.flows, self@.nb_departments),
                    self@.flows[i as int].len() == n,
                    forall|k: int, j: int|
                        0 <= k < i && 0 <= j < n ==> #[trigger] self@.flows[k][j] >= 0,
                    forall|l: int| 0 <= l < j ==> self@.flows[i as int][l] >= 0,
                decreases n - j,
            {
                if self.flows[i][j] < 0 {
                    assert(self@.flows[i as int][j as int] < 0);
                    return false;
                }
                j += 1;
            }
            i += 1;
        }
        true
    }

    /// Whether every flow is the same in both directions.
    fn has_symmetric_flows(&self) -> (b: bool)
        requires
            is_square(self@.flows, self@.nb_departments),
        ensures
            b == is_symmetric(self@.flows),
    {
        let n = self.nb_departments;
        let mut i: usize = 0;
        while i < n
            invariant
                i <= n,
                n == self.nb_departments,
                is_square(self@.flows, self@.nb_departments),
                forall|k: int, l: int|
                    0 <= k < i && 0 <= l < n ==> #[trigger] self@.flows[k][l]
                        == #[trigger] self@.flows[l][k],
            decreases n - i,
        {
            assert(self@.flows[i as int].len() == n);
            let mut j: usize = 0;
            while j < n
                invariant
                    i < n,
                    j <= n,
                    n == self.nb_departments,
                    is_square(self@.flows, self@.nb_departments),
                    forall|k: int, l: int|
                        0 <= k < i && 0 <= l < n ==> #[trigger] self@.flows[k][l]
                            == #[trigger] self@.flows[l][k],
                    forall|l: int|
                        0 <= l < j ==> #[trigger] self@.flows[i as int][l] == self@.flows[l][i as int],
                decreases n - j,
            {
                assert(self@.flows[j as int].len() == n);
                assert(self@.flows[i as int].len() == n);
                if self.flows[i][j] != self.flows[j][i] {
                    assert(self@.flows[i as int][j as int] != self@.flows[j as int][i as int]);
                    return false;
                }
                j += 1;
            }
            i += 1;
        }
        true
    }
}

} // verus!
