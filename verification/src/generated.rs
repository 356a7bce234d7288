//! Compiled problems: random access to rows and right-hand-side entries.

use vstd::arithmetic::power2::*;
use vstd::prelude::*;

use crate::binary64;
use crate::binary64::Binary64;
use crate::compiled::{CompiledMatrixFamily, MatrixRow};
use crate::evaluator;
use crate::evaluator::ExactArithmeticBounds;
use crate::generator;
use crate::generator::{GeneratedModel, GeneratorCertificate, RhsModel};
use crate::matrix;
use crate::matrix::MatrixModel;
use crate::problem;
use crate::problem::{Dyadic, FinalizedProblem, ProblemDigest, ProblemError, RhsSpec};
use crate::randomness::{derive_subseed, InstanceSeed};
use crate::sampling;

verus! {

#[derive(Clone, Debug, PartialEq, Eq)]
pub(crate) enum GeneratedRhs {
    ManufacturedOnes { dimension: usize, value: Dyadic },
    SeededPeriodic { dimension: usize, fractional_bits: u8, mantissas: Vec<i64> },
}

impl GeneratedRhs {
    pub(crate) open spec fn model(&self) -> RhsModel {
        match self {
            GeneratedRhs::ManufacturedOnes { dimension, value } => RhsModel::Constant {
                dimension: *dimension as nat,
                value: *value,
            },
            GeneratedRhs::SeededPeriodic { dimension, fractional_bits, mantissas } => {
                RhsModel::Periodic {
                    dimension: *dimension as nat,
                    fractional_bits: *fractional_bits,
                    table: mantissas@,
                }
            },
        }
    }

    fn value(&self, row: usize) -> (value: Option<Dyadic>)
        requires
            self.model().wf(),
        ensures
            row < self.model().dimension() ==> (value matches Some(found) && found.mantissa
                == self.model().mantissa(row as int) && found.fractional_bits
                == self.model().fractional_bits()),
            row >= self.model().dimension() ==> value is None,
    {
        match self {
            GeneratedRhs::ManufacturedOnes { dimension, value } => if row < *dimension {
                Some(*value)
            } else {
                None
            },
            GeneratedRhs::SeededPeriodic { dimension, fractional_bits, mantissas } => {
                if row < *dimension {
                    Some(Dyadic::new(mantissas[row % mantissas.len()], *fractional_bits))
                } else {
                    None
                }
            },
        }
    }

    fn certificate_values(&self) -> (values: (usize, u8, u64))
        ensures
            values.0 == self.model().period(),
            values.1 == self.model().fractional_bits(),
            values.2 == self.model().maximum_magnitude(),
    {
        match self {
            GeneratedRhs::ManufacturedOnes { value, .. } => (
                1,
                value.fractional_bits(),
                problem::unsigned_magnitude(value.mantissa()),
            ),
            GeneratedRhs::SeededPeriodic { fractional_bits, mantissas, .. } => (
                mantissas.len(),
                *fractional_bits,
                generator::table_maximum(mantissas),
            ),
        }
    }
}

fn compile_rhs(
    spec: RhsSpec,
    dimension: usize,
    matrix: &CompiledMatrixFamily,
    instance_seed: InstanceSeed,
) -> (result: Result<GeneratedRhs, ProblemError>)
    requires
        problem::rhs_error(spec) is None,
        matrix.wf(),
        dimension == matrix.model().dimension(),
    ensures
        (match generator::compiled_rhs(spec, matrix.model(), instance_seed@) {
            Ok(rhs) => result matches Ok(found) && found.model() == rhs && rhs.wf(),
            Err(error) => result matches Err(found) && found == error,
        }),
{
    match spec {
        RhsSpec::ManufacturedOnesV1 => match matrix.manufactured_ones_value() {
            Some(value) => Ok(GeneratedRhs::ManufacturedOnes { dimension, value }),
            None => Err(ProblemError::UnsupportedManufacturedRhs),
        },
        RhsSpec::SeededPeriodicDyadicV1 {
            period_bits,
            fractional_bits,
            minimum_mantissa,
            maximum_mantissa,
        } => {
            let period: usize = generator::period_length(period_bits);
            let seed = derive_subseed(instance_seed, generator::RHS_VALUES_LABEL);
            proof {
                sampling::lemma_plain_table(
                    seed@,
                    period as nat,
                    minimum_mantissa as int,
                    maximum_mantissa as int,
                );
            }
            match sampling::sample_plain_table(
                seed,
                period,
                minimum_mantissa,
                maximum_mantissa,
            ) {
                None => Err(ProblemError::SeedStreamExhausted),
                Some(mantissas) => {
                    assert(mantissas@.len() == pow2(period_bits as nat));
                    Ok(GeneratedRhs::SeededPeriodic { dimension, fractional_bits, mantissas })
                },
            }
        },
    }
}

/// A validated, compiled problem backed only by bounded periodic tables.
#[derive(Debug, PartialEq, Eq)]
pub struct GeneratedProblem {
    problem_digest: ProblemDigest,
    instance_seed: InstanceSeed,
    matrix: CompiledMatrixFamily,
    rhs: GeneratedRhs,
    certificate: GeneratorCertificate,
}

impl View for GeneratedProblem {
    type V = GeneratedModel;

    closed spec fn view(&self) -> GeneratedModel {
        GeneratedModel {
            digest: self.problem_digest@,
            seed: self.instance_seed@,
            matrix: self.matrix.model(),
            rhs: self.rhs.model(),
        }
    }
}

impl Clone for GeneratedProblem {
    fn clone(&self) -> (copy: Self)
        ensures
            copy@ == self@,
            copy.certified() == self.certified(),
    {
        proof {
            use_type_invariant(self);
        }
        let rhs = match &self.rhs {
            GeneratedRhs::ManufacturedOnes { dimension, value } => GeneratedRhs::ManufacturedOnes {
                dimension: *dimension,
                value: *value,
            },
            GeneratedRhs::SeededPeriodic { dimension, fractional_bits, mantissas } => {
                GeneratedRhs::SeededPeriodic {
                    dimension: *dimension,
                    fractional_bits: *fractional_bits,
                    mantissas: vstd::slice::slice_to_vec(mantissas.as_slice()),
                }
            },
        };
        GeneratedProblem {
            problem_digest: self.problem_digest,
            instance_seed: self.instance_seed,
            matrix: self.matrix.duplicate(),
            rhs,
            certificate: self.certificate,
        }
    }
}

/// What holds of every compiled problem and its certificate.
pub open spec fn sound(model: GeneratedModel, certificate: GeneratorCertificate) -> bool {
    &&& model.matrix.wf()
    &&& model.rhs.wf()
    &&& model.rhs.dimension() == model.matrix.dimension()
    &&& generator::certifies(
        certificate,
        certificate.boundary,
        certificate.maximum_half_bandwidth as nat,
        model.matrix,
        model.rhs,
    )
}

impl GeneratedProblem {
    #[verifier::type_invariant]
    spec fn inv(self) -> bool {
        &&& self.matrix.wf()
        &&& sound(self@, self.certificate)
    }

    /// The certificate of the compiled problem.
    pub closed spec fn certified(&self) -> GeneratorCertificate {
        self.certificate
    }

    /// Compiles bounded periodic lookup tables without materializing
    /// dimension-sized data.
    pub fn compile(problem: &FinalizedProblem) -> (result: Result<GeneratedProblem, ProblemError>)
        ensures
            problem::yields(result, generator::compiled_problem(problem@)),
            result matches Ok(compiled) ==> sound(compiled@, compiled.certified())
                && compiled.certified().maximum_half_bandwidth
                == generator::recipe_half_bandwidth(problem@.matrix),
    {
        let problem_digest = match problem.digest() {
            Ok(digest) => digest,
            Err(error) => {
                return Err(error);
            },
        };
        let instance_seed = problem.instance_seed();
        let (matrix, mut certificate) = match generator::compile_matrix(
            &problem.matrix,
            instance_seed,
        ) {
            Ok(compiled) => compiled,
            Err(error) => {
                return Err(error);
            },
        };
        let rhs = match compile_rhs(
            problem.rhs,
            certificate.dimension,
            &matrix,
            instance_seed,
        ) {
            Ok(rhs) => rhs,
            Err(error) => {
                return Err(error);
            },
        };
        let (rhs_period, rhs_fractional_bits, maximum_absolute_rhs_mantissa) =
            rhs.certificate_values();
        certificate.rhs_period = rhs_period;
        certificate.rhs_fractional_bits = rhs_fractional_bits;
        certificate.maximum_absolute_rhs_mantissa = maximum_absolute_rhs_mantissa;
        Ok(GeneratedProblem { problem_digest, instance_seed, matrix, rhs, certificate })
    }

    pub fn problem_digest(&self) -> (digest: ProblemDigest)
        ensures
            digest@ == self@.digest,
    {
        self.problem_digest
    }

    pub fn instance_seed(&self) -> (seed: InstanceSeed)
        ensures
            seed@ == self@.seed,
    {
        self.instance_seed
    }

    pub fn dimension(&self) -> (dimension: usize)
        ensures
            dimension == self@.matrix.dimension(),
            2 <= dimension <= problem::MAX_DIMENSION,
    {
        proof {
            use_type_invariant(self);
        }
        self.matrix.dimension()
    }

    pub fn structural_nonzeros(&self) -> (count: usize)
        ensures
            count == generator::structural_count(self@.matrix),
    {
        proof {
            use_type_invariant(self);
        }
        self.certificate.structural_nonzeros
    }

    /// Alias matching the mathematical `nnz` abbreviation.
    pub fn structural_nnz(&self) -> (count: usize)
        ensures
            count == generator::structural_count(self@.matrix),
    {
        self.structural_nonzeros()
    }

    pub fn certificate(&self) -> (certificate: &GeneratorCertificate)
        ensures
            *certificate == self.certified(),
            sound(self@, *certificate),
    {
        proof {
            use_type_invariant(self);
        }
        &self.certificate
    }

    /// The exact coefficient bounds that the certificate gives.
    pub fn exact_arithmetic_bounds(&self) -> (bounds: ExactArithmeticBounds)
        ensures
            bounds == evaluator::exact_bounds_of(self.certified()),
    {
        ExactArithmeticBounds {
            logical_dimension: self.certificate.dimension,
            matrix_fractional_bits: self.certificate.coefficient_fractional_bits,
            rhs_fractional_bits: self.certificate.rhs_fractional_bits,
            maximum_absolute_row_sum_mantissa:
                self.certificate.maximum_absolute_row_sum_mantissa_bound,
            maximum_absolute_rhs_mantissa: self.certificate.maximum_absolute_rhs_mantissa,
        }
    }

    pub fn row(&self, row: usize) -> (entries: Option<MatrixRow<'_>>)
        ensures
            row < self@.matrix.dimension() ==> (entries matches Some(found) && found.wf()
                && matrix::lists_row(self@.matrix, row as int, found@)),
            row >= self@.matrix.dimension() ==> entries is None,
    {
        proof {
            use_type_invariant(self);
        }
        if row >= self.matrix.dimension() {
            return None;
        }
        Some(self.matrix.row(row))
    }

    pub fn rows(&self) -> (rows: MatrixRows<'_>)
        ensures
            rows.wf(),
            rows.matrix() == self@.matrix,
            rows.position() == 0,
    {
        proof {
            use_type_invariant(self);
        }
        MatrixRows { matrix: &self.matrix, next: 0 }
    }

    pub fn rhs(&self, row: usize) -> (value: Option<Dyadic>)
        ensures
            row < self@.matrix.dimension() ==> (value matches Some(found) && found.mantissa
                == self@.rhs.mantissa(row as int) && found.fractional_bits
                == self@.rhs.fractional_bits()),
            row >= self@.matrix.dimension() ==> value is None,
    {
        proof {
            use_type_invariant(self);
        }
        self.rhs.value(row)
    }

    /// A right-hand-side entry as an exact binary64.
    pub fn rhs_f64(&self, row: usize) -> (value: Option<Binary64>)
        ensures
            row < self@.matrix.dimension() ==> (value matches Some(found)
                && binary64::spells_dyadic(
                found@,
                self@.rhs.mantissa(row as int) as i64,
                self@.rhs.fractional_bits(),
            ) && binary64::unit_magnitude(found@) == problem::magnitude(
                self@.rhs.mantissa(row as int),
            ) * pow2((1074 - self@.rhs.fractional_bits()) as nat)),
            row >= self@.matrix.dimension() ==> value is None,
    {
        proof {
            use_type_invariant(self);
        }
        match self.rhs(row) {
            Some(value) => {
                proof {
                    match self@.rhs {
                        RhsModel::Periodic { table, .. } => {
                            let index = row as int % table.len() as int;
                            assert(0 <= index < table.len());
                            assert(problem::magnitude(table[index] as int)
                                <= problem::MAX_EXACT_BINARY64_MANTISSA);
                        },
                        _ => {},
                    }
                    binary64::lemma_short_numbers_are_significant(
                        problem::magnitude(value.mantissa as int) as nat,
                    );
                }
                Some(value.to_f64())
            },
            None => None,
        }
    }

    /// Flat periodic matrix values in compiled-family order.
    ///
    /// The tridiagonal family has one table. Shifted Laplacians concatenate one
    /// table per increasing positive-offset descriptor. The row-sparse family
    /// stores pattern-major off-diagonal values; its diagonal table is
    /// separate and not returned here.
    pub fn off_diagonal_periodic_mantissas(&self) -> (values: &[i64])
        ensures
            values@ == matrix::off_diagonal_values(self@.matrix),
    {
        proof {
            use_type_invariant(self);
        }
        self.matrix.off_diagonal_mantissas()
    }

    /// The seeded right-hand-side table. Manufactured values have no table.
    pub fn rhs_periodic_mantissas(&self) -> (values: Option<&[i64]>)
        ensures
            self@.rhs is Constant ==> values is None,
            self@.rhs matches RhsModel::Periodic { table, .. } ==> (values matches Some(found)
                && found@ == table),
    {
        match &self.rhs {
            GeneratedRhs::ManufacturedOnes { .. } => None,
            GeneratedRhs::SeededPeriodic { mantissas, .. } => Some(mantissas.as_slice()),
        }
    }

    pub(crate) fn family(&self) -> (family: &CompiledMatrixFamily)
        ensures
            family.wf(),
            family.model() == self@.matrix,
    {
        proof {
            use_type_invariant(self);
        }
        &self.matrix
    }
}

impl FinalizedProblem {
    /// Compiles bounded periodic lookup tables without materializing
    /// dimension-sized data.
    pub fn compile(&self) -> (result: Result<GeneratedProblem, ProblemError>)
        ensures
            problem::yields(result, generator::compiled_problem(self@)),
            result matches Ok(compiled) ==> sound(compiled@, compiled.certified())
                && compiled.certified().maximum_half_bandwidth
                == generator::recipe_half_bandwidth(self@.matrix),
    {
        GeneratedProblem::compile(self)
    }
}

/// Sequential row view that retains the same allocation-free row
/// representation.
#[derive(Clone, Debug)]
pub struct MatrixRows<'a> {
    matrix: &'a CompiledMatrixFamily,
    next: usize,
}

impl<'a> MatrixRows<'a> {
    pub closed spec fn matrix(&self) -> MatrixModel {
        self.matrix.model()
    }

    /// The row that comes next.
    pub closed spec fn position(&self) -> nat {
        self.next as nat
    }

    pub closed spec fn wf(&self) -> bool {
        self.matrix.wf() && self.next <= self.matrix.model().dimension()
    }

    /// Number of rows not yet taken.
    pub fn len(&self) -> (len: usize)
        requires
            self.wf(),
        ensures
            len == self.matrix().dimension() - self.position(),
    {
        self.matrix.dimension() - self.next
    }

    pub fn next(&mut self) -> (row: Option<MatrixRow<'a>>)
        requires
            old(self).wf(),
        ensures
            final(self).wf(),
            final(self).matrix() == old(self).matrix(),
            old(self).position() < old(self).matrix().dimension() ==> (row matches Some(found)
                && found.wf() && matrix::lists_row(
                old(self).matrix(),
                old(self).position() as int,
                found@,
            ) && final(self).position() == old(self).position() + 1),
            old(self).position() >= old(self).matrix().dimension() ==> row is None
                && final(self).position() == old(self).position(),
    {
        if self.next == self.matrix.dimension() {
            return None;
        }
        let row: usize = self.next;
        self.next = self.next + 1;
        Some(self.matrix.row(row))
    }
}

/// Random-access sparse matrix interface used by both streaming provers and
/// validators.
pub trait SparseMatrix {
    type Row<'a> where Self: 'a;

    /// The matrix that is accessed.
    spec fn accessed(&self) -> MatrixModel;

    /// Whether a row value gives access to the structural entries of a row.
    spec fn accesses_row(&self, row: int, entries: Self::Row<'_>) -> bool;

    fn dimension(&self) -> (dimension: usize)
        ensures
            dimension == self.accessed().dimension(),
    ;

    fn structural_nonzeros(&self) -> (count: usize)
        ensures
            count == generator::structural_count(self.accessed()),
    ;

    fn row(&self, row: usize) -> (entries: Option<Self::Row<'_>>)
        ensures
            row < self.accessed().dimension() ==> (entries matches Some(found)
                && self.accesses_row(row as int, found)),
            row >= self.accessed().dimension() ==> entries is None,
    ;
}

impl SparseMatrix for GeneratedProblem {
    type Row<'a> = MatrixRow<'a>;

    open spec fn accessed(&self) -> MatrixModel {
        self@.matrix
    }

    open spec fn accesses_row(&self, row: int, entries: MatrixRow<'_>) -> bool {
        entries.wf() && matrix::lists_row(self@.matrix, row, entries@)
    }

    fn dimension(&self) -> usize {
        GeneratedProblem::dimension(self)
    }

    fn structural_nonzeros(&self) -> usize {
        GeneratedProblem::structural_nonzeros(self)
    }

    fn row(&self, row: usize) -> Option<MatrixRow<'_>> {
        GeneratedProblem::row(self, row)
    }
}

} // verus!
