//! The work that a problem asks of a public evaluator, known from its template
//! before any seed is.

use vstd::arithmetic::power2::*;
use vstd::prelude::*;

use crate::generator;
use crate::generator::GeneratedModel;
use crate::matrix;
use crate::powers;
use crate::problem;
use crate::problem::{
    MatrixRecipe, MatrixSpec, OffDiagonalValues, ProblemError, ProblemModel, ProblemTemplate,
    RhsSpec, SymmetricDiaEdge, TemplateModel,
};
use crate::sampling;
use crate::statement;
use crate::sums;

verus! {

/// Pattern terms of one public matrix evaluation and of one public
/// right-hand-side evaluation.
#[derive(Clone, Copy, Debug, PartialEq, Eq, Structural)]
pub struct PublicEvaluationTerms {
    pub matrix_period_terms: u64,
    pub rhs_period_terms: u64,
}

/// The smaller of two integers.
pub open spec fn smaller(left: int, right: int) -> int {
    if left < right {
        left
    } else {
        right
    }
}

/// The terms of one edge diagonal: its period, but no more than its length.
pub open spec fn edge_terms(edge: SymmetricDiaEdge, dimension: u64) -> int {
    smaller(pow2(edge.period_bits as nat) as int, dimension - edge.positive_offset)
}

/// The terms of one public matrix evaluation.
pub open spec fn recipe_matrix_terms(recipe: MatrixRecipe) -> int {
    match recipe {
        MatrixRecipe::Tridiagonal { dimension, period_bits, .. } => smaller(
            pow2(period_bits as nat) as int,
            powers::padded(dimension as nat) as int,
        ),
        MatrixRecipe::DiaLaplacian { dimension, edges, .. } => sums::sum_below(
            edges.len(),
            |k: int| edge_terms(edges[k], dimension),
        ),
        MatrixRecipe::RowSparse { dimension, row_pattern_bits, row_width, .. } => smaller(
            generator::row_patterns(row_pattern_bits, dimension as nat) as int,
            dimension as int,
        ) * row_width,
    }
}

/// The terms of one public right-hand-side evaluation.
pub open spec fn recipe_rhs_terms(rhs: RhsSpec, dimension: u64) -> int {
    match rhs {
        RhsSpec::ManufacturedOnesV1 => 1,
        RhsSpec::SeededPeriodicDyadicV1 { period_bits, .. } => smaller(
            pow2(period_bits as nat) as int,
            powers::padded(dimension as nat) as int,
        ),
    }
}

/// What counting the terms of a template gives.
pub open spec fn terms_outcome(template: TemplateModel) -> Result<
    PublicEvaluationTerms,
    ProblemError,
> {
    match template.error() {
        Some(error) => Err(error),
        None => Ok(
            PublicEvaluationTerms {
                matrix_period_terms: recipe_matrix_terms(template.matrix) as u64,
                rhs_period_terms: recipe_rhs_terms(template.rhs, template.matrix.dimension())
                    as u64,
            },
        ),
    }
}

/// `2^bits`, but no more than a limit.
fn capped_period(bits: u8, limit: u64) -> (terms: u64)
    requires
        bits <= problem::MAX_PERIOD_BITS,
    ensures
        terms == smaller(pow2(bits as nat) as int, limit as int),
        terms <= 65536,
{
    let period: u64 = generator::period_length(bits) as u64;
    if period < limit {
        period
    } else {
        limit
    }
}

fn padded_dimension(dimension: u64) -> (padded: u64)
    requires
        problem::MIN_DIMENSION <= dimension <= problem::MAX_DIMENSION,
    ensures
        padded == powers::padded(dimension as nat),
        padded <= 0x4000_0000,
{
    let exponent: u32 = powers::padded_exponent(dimension as usize);
    powers::power_of_two(exponent) as u64
}

fn dia_terms(edges: &Vec<SymmetricDiaEdge>, dimension: u64) -> (terms: u64)
    requires
        edges@.len() <= problem::MAX_EDGE_DIAGONALS,
        forall|k: int|
            0 <= k < edges@.len() ==> #[trigger] problem::edge_error(edges@, dimension, k) is None,
    ensures
        terms == sums::sum_below(edges@.len(), |k: int| edge_terms(edges@[k], dimension)),
{
    let ghost term = |k: int| edge_terms(edges@[k], dimension);
    let mut terms: u64 = 0;
    let mut index: usize = 0;
    while index < edges.len()
        invariant
            index <= edges@.len() <= problem::MAX_EDGE_DIAGONALS,
            forall|k: int|
                0 <= k < edges@.len() ==> #[trigger] problem::edge_error(
                    edges@,
                    dimension,
                    k,
                ) is None,
            term == (|k: int| edge_terms(edges@[k], dimension)),
            terms == sums::sum_below(index as nat, term),
            terms <= 65536 * index,
        decreases edges@.len() - index,
    {
        let edge = edges[index];
        assert(problem::edge_error(edges@, dimension, index as int) is None);
        let count: u64 = capped_period(edge.period_bits, dimension - edge.positive_offset);
        assert(sums::sum_below((index + 1) as nat, term) == sums::sum_below(index as nat, term)
            + term(index as int));
        terms = terms + count;
        index = index + 1;
    }
    terms
}

impl ProblemTemplate {
    /// The terms that every problem finalized from this template evaluates.
    pub fn public_evaluation_terms(&self) -> (result: Result<PublicEvaluationTerms, ProblemError>)
        ensures
            result == terms_outcome(self@),
            result matches Ok(terms) ==> terms.matrix_period_terms == recipe_matrix_terms(
                self@.matrix,
            ) && terms.rhs_period_terms == recipe_rhs_terms(self@.rhs, self@.matrix.dimension()),
    {
        if let Err(error) = self.validate() {
            return Err(error);
        }
        let dimension: u64 = self.dimension();
        let padded: u64 = padded_dimension(dimension);
        let matrix_period_terms: u64 = match &self.matrix {
            MatrixSpec::SeededSymmetricTridiagonalV1 {
                off_diagonal: OffDiagonalValues::SeededPeriodicNegativeDyadicV1 {
                    period_bits,
                    ..
                },
                ..
            } => capped_period(*period_bits, padded),
            MatrixSpec::SeededSymmetricDiaLaplacianV1 { edge_diagonals, .. } => {
                proof {
                    generator::lemma_edges_valid(
                        edge_diagonals@,
                        dimension,
                        edge_diagonals@.len(),
                    );
                }
                dia_terms(edge_diagonals, dimension)
            },
            MatrixSpec::SeededNonsymmetricRowSparseV1 {
                row_pattern_bits,
                maximum_nonzeros_per_row,
                ..
            } => {
                proof {
                    powers::lemma_padded(dimension as nat);
                }
                let patterns: u64 = capped_period(*row_pattern_bits, dimension);
                assert(patterns * *maximum_nonzeros_per_row <= 65536 * 255) by (nonlinear_arith)
                    requires
                        patterns <= 65536,
                        *maximum_nonzeros_per_row <= 255,
                ;
                patterns * *maximum_nonzeros_per_row as u64
            },
        };
        let rhs_period_terms: u64 = match self.rhs {
            RhsSpec::ManufacturedOnesV1 => 1,
            RhsSpec::SeededPeriodicDyadicV1 { period_bits, .. } => capped_period(
                period_bits,
                padded,
            ),
        };
        Ok(PublicEvaluationTerms { matrix_period_terms, rhs_period_terms })
    }
}

proof fn lemma_matrix_terms(recipe: MatrixRecipe, seed: Seq<u8>, matrix: matrix::MatrixModel)
    requires
        problem::matrix_error(recipe) is None,
        generator::compiled_matrix(recipe, seed) == Some(matrix),
    ensures
        (if matrix is Tridiagonal {
            smaller(
                powers::padded(matrix.dimension()) as int,
                generator::evaluation_terms(matrix),
            )
        } else {
            generator::evaluation_terms(matrix)
        }) == recipe_matrix_terms(recipe),
{
    generator::lemma_compiled_matrix(recipe, seed);
    match recipe {
        MatrixRecipe::Tridiagonal { period_bits, minimum, maximum, .. } => {
            sampling::lemma_negative_table(
                generator::labelled(seed, generator::MATRIX_VALUES_LABEL),
                pow2(period_bits as nat),
                minimum as nat,
                maximum as nat,
            );
        },
        MatrixRecipe::DiaLaplacian { dimension, edges, .. } => {
            generator::lemma_dia_offsets(recipe, seed);
            let compiled = matrix.edges();
            let left = |k: int|
                if compiled[k].table.len() < dimension - compiled[k].offset {
                    compiled[k].table.len() as int
                } else {
                    dimension - compiled[k].offset
                };
            let right = |k: int| edge_terms(edges[k], dimension);
            assert forall|k: int| 0 <= k < edges.len() implies #[trigger] left(k) == right(k) by {
                assert(compiled[k].offset == edges[k].positive_offset);
            }
            sums::lemma_sum_equal(edges.len(), left, right);
        },
        MatrixRecipe::RowSparse { .. } => {
            generator::lemma_row_sparse_period(recipe, seed);
        },
    }
}

/// The terms are known from the template: whatever the seed, the compiled
/// problem evaluates as many terms as its template says.
pub proof fn compiled_terms_are_those_of_the_template(
    problem: ProblemModel,
    compiled: GeneratedModel,
)
    requires
        generator::compiled_problem(problem) == Ok::<GeneratedModel, ProblemError>(compiled),
    ensures
        statement::matrix_terms(compiled) == recipe_matrix_terms(problem.template().matrix),
        statement::rhs_terms(compiled) == recipe_rhs_terms(
            problem.template().rhs,
            problem.template().matrix.dimension(),
        ),
{
    let seed = problem.randomness.seed();
    generator::lemma_compiled_matrix(problem.matrix, seed);
    lemma_matrix_terms(problem.matrix, seed, compiled.matrix);
    powers::lemma_padded(problem.matrix.dimension() as nat);
    if let RhsSpec::SeededPeriodicDyadicV1 {
        period_bits,
        minimum_mantissa,
        maximum_mantissa,
        ..
    } = problem.rhs {
        sampling::lemma_plain_table(
            generator::labelled(seed, generator::RHS_VALUES_LABEL),
            pow2(period_bits as nat),
            minimum_mantissa as int,
            maximum_mantissa as int,
        );
    }
}

} // verus!
