//! What the canonical bytes of templates and problems bind.

use vstd::prelude::*;

use crate::bytes;
use crate::canonical;
use crate::digest_laws;
use crate::hashing;
use crate::problem;
use crate::problem::{
    MatrixRecipe, ProblemError, ProblemModel, RequestedOutput, RhsSpec, SymmetricDiaEdge, TemplateModel,
};
use crate::randomness;
use crate::randomness::{RandomnessModel, TemplateRandomnessModel};

verus! {

/// The edge diagonals of the recipe can be counted in eight bytes.
pub open spec fn sized_matrix(matrix: MatrixRecipe) -> bool {
    match matrix {
        MatrixRecipe::DiaLaplacian { edges, .. } => edges.len() <= u64::MAX,
        _ => true,
    }
}

/// The fields of the template have their sizes, and its lists can be counted.
pub open spec fn sized_template(template: TemplateModel) -> bool {
    &&& match template.randomness {
        TemplateRandomnessModel::Literal { seed } => seed.len() == 32,
        TemplateRandomnessModel::ChallengeDerived { .. } => true,
    }
    &&& sized_matrix(template.matrix)
    &&& template.outputs.len() <= u32::MAX
}

/// The seed and the digests of the record are 32 bytes each.
pub open spec fn fixed_widths(record: RandomnessModel) -> bool {
    match record {
        RandomnessModel::Literal { seed } => seed.len() == 32,
        RandomnessModel::ChallengeDerived { template_digest, context_digest, seed, .. } => {
            &&& template_digest.len() == 32
            &&& context_digest.len() == 32
            &&& seed.len() == 32
        },
    }
}

/// The record has its widths, and its context can be counted.
pub open spec fn sized_record(record: RandomnessModel) -> bool {
    &&& fixed_widths(record)
    &&& record is ChallengeDerived ==> record->context.len() <= u64::MAX
}

/// The fields of the problem have their sizes, and its lists and context can
/// be counted.
pub open spec fn sized_problem(problem: ProblemModel) -> bool {
    &&& sized_record(problem.randomness)
    &&& sized_matrix(problem.matrix)
    &&& problem.outputs.len() <= u32::MAX
}

/// Two byte strings that begin alike in pieces of one length have equal pieces
/// and equal rests.
proof fn lemma_split(first: Seq<u8>, first_rest: Seq<u8>, second: Seq<u8>, second_rest: Seq<u8>)
    requires
        first.len() == second.len(),
        first + first_rest == second + second_rest,
    ensures
        first == second,
        first_rest == second_rest,
{
    let length = first.len() as int;
    assert((first + first_rest).take(length) =~= first);
    assert((second + second_rest).take(length) =~= second);
    assert((first + first_rest).skip(length) =~= first_rest);
    assert((second + second_rest).skip(length) =~= second_rest);
}

/// A number of fixed width at the start of two equal byte strings is the same
/// number, and the rests are equal.
proof fn lemma_number(
    first: nat,
    first_rest: Seq<u8>,
    second: nat,
    second_rest: Seq<u8>,
    width: nat,
)
    requires
        first < bytes::byte_power(width),
        second < bytes::byte_power(width),
        bytes::be_bytes(first, width) + first_rest == bytes::be_bytes(second, width) + second_rest,
    ensures
        first == second,
        first_rest == second_rest,
{
    bytes::lemma_be_bytes_len(first, width);
    bytes::lemma_be_bytes_len(second, width);
    lemma_split(
        bytes::be_bytes(first, width),
        first_rest,
        bytes::be_bytes(second, width),
        second_rest,
    );
    bytes::lemma_be_round_trip(first, width);
    bytes::lemma_be_round_trip(second, width);
}

proof fn lemma_edge(first: SymmetricDiaEdge, second: SymmetricDiaEdge)
    requires
        problem::edge_encoding(first) == problem::edge_encoding(second),
    ensures
        first == second,
{
    bytes::lemma_byte_powers();
    let none = Seq::<u8>::empty();
    let first_high = bytes::be_bytes(first.maximum_weight_mantissa as nat, 8) + none;
    let second_high = bytes::be_bytes(second.maximum_weight_mantissa as nat, 8) + none;
    let first_low = bytes::be_bytes(first.minimum_weight_mantissa as nat, 8) + first_high;
    let second_low = bytes::be_bytes(second.minimum_weight_mantissa as nat, 8) + second_high;
    let first_period = bytes::be_bytes(first.period_bits as nat, 1) + first_low;
    let second_period = bytes::be_bytes(second.period_bits as nat, 1) + second_low;
    assert(problem::edge_encoding(first) =~= bytes::be_bytes(first.positive_offset as nat, 8)
        + first_period);
    assert(problem::edge_encoding(second) =~= bytes::be_bytes(second.positive_offset as nat, 8)
        + second_period);
    lemma_number(
        first.positive_offset as nat,
        first_period,
        second.positive_offset as nat,
        second_period,
        8,
    );
    lemma_number(first.period_bits as nat, first_low, second.period_bits as nat, second_low, 1);
    lemma_number(
        first.minimum_weight_mantissa as nat,
        first_high,
        second.minimum_weight_mantissa as nat,
        second_high,
        8,
    );
    lemma_number(
        first.maximum_weight_mantissa as nat,
        none,
        second.maximum_weight_mantissa as nat,
        none,
        8,
    );
}

proof fn lemma_edge_length(edge: SymmetricDiaEdge)
    ensures
        problem::edge_encoding(edge).len() == 25,
{
    bytes::lemma_be_bytes_len(edge.positive_offset as nat, 8);
    bytes::lemma_be_bytes_len(edge.period_bits as nat, 1);
    bytes::lemma_be_bytes_len(edge.minimum_weight_mantissa as nat, 8);
    bytes::lemma_be_bytes_len(edge.maximum_weight_mantissa as nat, 8);
}

proof fn lemma_edges_length(edges: Seq<SymmetricDiaEdge>)
    ensures
        problem::edges_encoding(edges).len() == 25 * edges.len(),
    decreases edges.len(),
{
    if edges.len() > 0 {
        lemma_edges_length(edges.drop_last());
        lemma_edge_length(edges.last());
    }
}

proof fn lemma_edges(first: Seq<SymmetricDiaEdge>, second: Seq<SymmetricDiaEdge>)
    requires
        first.len() == second.len(),
        problem::edges_encoding(first) == problem::edges_encoding(second),
    ensures
        first == second,
    decreases first.len(),
{
    if first.len() > 0 {
        let first_head = first.drop_last();
        let second_head = second.drop_last();
        lemma_edges_length(first_head);
        lemma_edges_length(second_head);
        lemma_split(
            problem::edges_encoding(first_head),
            problem::edge_encoding(first.last()),
            problem::edges_encoding(second_head),
            problem::edge_encoding(second.last()),
        );
        lemma_edges(first_head, second_head);
        lemma_edge(first.last(), second.last());
        assert(first =~= first_head.push(first.last()));
        assert(second =~= second_head.push(second.last()));
    }
    assert(first =~= second);
}

/// A number that stands at a place of a byte string is read there.
proof fn lemma_reads(input: Seq<u8>, at: int, value: nat, width: nat)
    requires
        value < bytes::byte_power(width),
        input.subrange(at, at + width) == bytes::be_bytes(value, width),
    ensures
        bytes::be_value(input.subrange(at, at + width)) == value,
{
    bytes::lemma_be_round_trip(value, width);
}

/// The tag that a matrix encoding begins with.
spec fn matrix_tag(matrix: MatrixRecipe) -> nat {
    match matrix {
        MatrixRecipe::Tridiagonal { .. } => 1,
        MatrixRecipe::DiaLaplacian { .. } => 2,
        MatrixRecipe::RowSparse { .. } => 3,
    }
}

proof fn lemma_matrix_tag(matrix: MatrixRecipe, rest: Seq<u8>)
    ensures
        (problem::matrix_encoding(matrix) + rest).take(2) == bytes::be_bytes(matrix_tag(matrix), 2),
        bytes::be_value((problem::matrix_encoding(matrix) + rest).take(2)) == matrix_tag(matrix),
{
    bytes::lemma_byte_powers();
    bytes::lemma_be_bytes_len(matrix_tag(matrix), 2);
    bytes::lemma_be_round_trip(matrix_tag(matrix), 2);
    assert((problem::matrix_encoding(matrix) + rest).take(2) =~= bytes::be_bytes(
        matrix_tag(matrix),
        2,
    ));
}

proof fn lemma_tridiagonal_reads(matrix: MatrixRecipe, rest: Seq<u8>, input: Seq<u8>)
    requires
        matrix is Tridiagonal,
        input == problem::matrix_encoding(matrix) + rest,
    ensures
        bytes::be_value(input.subrange(2, 10)) == matrix->Tridiagonal_dimension,
        bytes::be_value(input.subrange(14, 15)) == matrix->Tridiagonal_period_bits,
        bytes::be_value(input.subrange(15, 16)) == matrix->Tridiagonal_fractional_bits,
        bytes::be_value(input.subrange(16, 24)) == matrix->Tridiagonal_minimum,
        bytes::be_value(input.subrange(24, 32)) == matrix->Tridiagonal_maximum,
        bytes::be_value(input.subrange(34, 42)) == matrix->Tridiagonal_margin,
        input.skip(42) == rest,
{
    let dimension = matrix->Tridiagonal_dimension as nat;
    let period_bits = matrix->Tridiagonal_period_bits as nat;
    let fractional_bits = matrix->Tridiagonal_fractional_bits as nat;
    let minimum = matrix->Tridiagonal_minimum as nat;
    let maximum = matrix->Tridiagonal_maximum as nat;
    let margin = matrix->Tridiagonal_margin as nat;
    bytes::lemma_byte_powers();
    bytes::lemma_be_bytes_len(1, 2);
    bytes::lemma_be_bytes_len(dimension, 8);
    bytes::lemma_be_bytes_len(period_bits, 1);
    bytes::lemma_be_bytes_len(fractional_bits, 1);
    bytes::lemma_be_bytes_len(minimum, 8);
    bytes::lemma_be_bytes_len(maximum, 8);
    bytes::lemma_be_bytes_len(margin, 8);
    assert(input.subrange(2, 10) =~= bytes::be_bytes(dimension, 8));
    assert(input.subrange(14, 15) =~= bytes::be_bytes(period_bits, 1));
    assert(input.subrange(15, 16) =~= bytes::be_bytes(fractional_bits, 1));
    assert(input.subrange(16, 24) =~= bytes::be_bytes(minimum, 8));
    assert(input.subrange(24, 32) =~= bytes::be_bytes(maximum, 8));
    assert(input.subrange(34, 42) =~= bytes::be_bytes(margin, 8));
    assert(input.skip(42) =~= rest);
    lemma_reads(input, 2, dimension, 8);
    lemma_reads(input, 14, period_bits, 1);
    lemma_reads(input, 15, fractional_bits, 1);
    lemma_reads(input, 16, minimum, 8);
    lemma_reads(input, 24, maximum, 8);
    lemma_reads(input, 34, margin, 8);
}

proof fn lemma_laplacian_reads(matrix: MatrixRecipe, rest: Seq<u8>, input: Seq<u8>)
    requires
        matrix is DiaLaplacian,
        sized_matrix(matrix),
        input == problem::matrix_encoding(matrix) + rest,
    ensures
        bytes::be_value(input.subrange(2, 10)) == matrix->DiaLaplacian_dimension,
        bytes::be_value(input.subrange(12, 13)) == matrix->DiaLaplacian_fractional_bits,
        bytes::be_value(input.subrange(13, 21)) == matrix->shift,
        bytes::be_value(input.subrange(21, 29)) == matrix->edges.len(),
        input.skip(29) == problem::edges_encoding(matrix->edges) + rest,
{
    let dimension = matrix->DiaLaplacian_dimension as nat;
    let fractional_bits = matrix->DiaLaplacian_fractional_bits as nat;
    let shift = matrix->shift as nat;
    let count = matrix->edges.len();
    bytes::lemma_byte_powers();
    bytes::lemma_be_bytes_len(2, 2);
    bytes::lemma_be_bytes_len(1, 2);
    bytes::lemma_be_bytes_len(dimension, 8);
    bytes::lemma_be_bytes_len(fractional_bits, 1);
    bytes::lemma_be_bytes_len(shift, 8);
    bytes::lemma_be_bytes_len(count, 8);
    assert(input.subrange(2, 10) =~= bytes::be_bytes(dimension, 8));
    assert(input.subrange(12, 13) =~= bytes::be_bytes(fractional_bits, 1));
    assert(input.subrange(13, 21) =~= bytes::be_bytes(shift, 8));
    assert(input.subrange(21, 29) =~= bytes::be_bytes(count, 8));
    assert(input.skip(29) =~= problem::edges_encoding(matrix->edges) + rest);
    lemma_reads(input, 2, dimension, 8);
    lemma_reads(input, 12, fractional_bits, 1);
    lemma_reads(input, 13, shift, 8);
    lemma_reads(input, 21, count, 8);
}

proof fn lemma_row_sparse_reads(matrix: MatrixRecipe, rest: Seq<u8>, input: Seq<u8>)
    requires
        matrix is RowSparse,
        input == problem::matrix_encoding(matrix) + rest,
    ensures
        bytes::be_value(input.subrange(2, 10)) == matrix->RowSparse_dimension,
        bytes::be_value(input.subrange(12, 13)) == matrix->row_pattern_bits,
        bytes::be_value(input.subrange(13, 21)) == matrix->half_bandwidth,
        bytes::be_value(input.subrange(21, 22)) == matrix->row_width,
        bytes::be_value(input.subrange(22, 23)) == matrix->RowSparse_fractional_bits,
        bytes::be_value(input.subrange(23, 31)) == bytes::twos_complement_64(
            matrix->RowSparse_minimum,
        ),
        bytes::be_value(input.subrange(31, 39)) == bytes::twos_complement_64(
            matrix->RowSparse_maximum,
        ),
        input.skip(39) == rest,
{
    let dimension = matrix->RowSparse_dimension as nat;
    let pattern_bits = matrix->row_pattern_bits as nat;
    let half_bandwidth = matrix->half_bandwidth as nat;
    let row_width = matrix->row_width as nat;
    let fractional_bits = matrix->RowSparse_fractional_bits as nat;
    let minimum = bytes::twos_complement_64(matrix->RowSparse_minimum);
    let maximum = bytes::twos_complement_64(matrix->RowSparse_maximum);
    bytes::lemma_byte_powers();
    bytes::lemma_be_bytes_len(3, 2);
    bytes::lemma_be_bytes_len(1, 2);
    bytes::lemma_be_bytes_len(dimension, 8);
    bytes::lemma_be_bytes_len(pattern_bits, 1);
    bytes::lemma_be_bytes_len(half_bandwidth, 8);
    bytes::lemma_be_bytes_len(row_width, 1);
    bytes::lemma_be_bytes_len(fractional_bits, 1);
    bytes::lemma_be_bytes_len(minimum, 8);
    bytes::lemma_be_bytes_len(maximum, 8);
    assert(input.subrange(2, 10) =~= bytes::be_bytes(dimension, 8));
    assert(input.subrange(12, 13) =~= bytes::be_bytes(pattern_bits, 1));
    assert(input.subrange(13, 21) =~= bytes::be_bytes(half_bandwidth, 8));
    assert(input.subrange(21, 22) =~= bytes::be_bytes(row_width, 1));
    assert(input.subrange(22, 23) =~= bytes::be_bytes(fractional_bits, 1));
    assert(input.subrange(23, 31) =~= bytes::be_bytes(minimum, 8));
    assert(input.subrange(31, 39) =~= bytes::be_bytes(maximum, 8));
    assert(input.skip(39) =~= rest);
    lemma_reads(input, 2, dimension, 8);
    lemma_reads(input, 12, pattern_bits, 1);
    lemma_reads(input, 13, half_bandwidth, 8);
    lemma_reads(input, 21, row_width, 1);
    lemma_reads(input, 22, fractional_bits, 1);
    lemma_reads(input, 23, minimum, 8);
    lemma_reads(input, 31, maximum, 8);
}

/// Matrix specifications are bound by their canonical bytes, whatever follows:
/// two that begin the same byte string are the same and leave the same rest.
pub proof fn matrix_encodings_bind_matrices(
    first: MatrixRecipe,
    first_rest: Seq<u8>,
    second: MatrixRecipe,
    second_rest: Seq<u8>,
)
    requires
        sized_matrix(first),
        sized_matrix(second),
        problem::matrix_encoding(first) + first_rest == problem::matrix_encoding(second)
            + second_rest,
    ensures
        first == second,
        first_rest == second_rest,
{
    let input = problem::matrix_encoding(first) + first_rest;
    lemma_matrix_tag(first, first_rest);
    lemma_matrix_tag(second, second_rest);
    if first is Tridiagonal {
        assert(second is Tridiagonal);
        lemma_tridiagonal_reads(first, first_rest, input);
        lemma_tridiagonal_reads(second, second_rest, input);
    } else if first is DiaLaplacian {
        assert(second is DiaLaplacian);
        lemma_laplacian_reads(first, first_rest, input);
        lemma_laplacian_reads(second, second_rest, input);
        lemma_edges_length(first->edges);
        lemma_edges_length(second->edges);
        lemma_split(
            problem::edges_encoding(first->edges),
            first_rest,
            problem::edges_encoding(second->edges),
            second_rest,
        );
        lemma_edges(first->edges, second->edges);
    } else {
        assert(second is RowSparse);
        lemma_row_sparse_reads(first, first_rest, input);
        lemma_row_sparse_reads(second, second_rest, input);
    }
}

proof fn lemma_rhs_reads(rhs: RhsSpec, rest: Seq<u8>, input: Seq<u8>)
    requires
        input == problem::rhs_encoding(rhs) + rest,
    ensures
        match rhs {
            RhsSpec::ManufacturedOnesV1 => {
                &&& bytes::be_value(input.subrange(0, 2)) == 1
                &&& input.skip(2) == rest
            },
            RhsSpec::SeededPeriodicDyadicV1 {
                period_bits,
                fractional_bits,
                minimum_mantissa,
                maximum_mantissa,
            } => {
                &&& bytes::be_value(input.subrange(0, 2)) == 2
                &&& bytes::be_value(input.subrange(2, 3)) == period_bits
                &&& bytes::be_value(input.subrange(3, 4)) == fractional_bits
                &&& bytes::be_value(input.subrange(4, 12)) == bytes::twos_complement_64(
                    minimum_mantissa,
                )
                &&& bytes::be_value(input.subrange(12, 20)) == bytes::twos_complement_64(
                    maximum_mantissa,
                )
                &&& input.skip(20) == rest
            },
        },
{
    bytes::lemma_byte_powers();
    bytes::lemma_be_bytes_len(1, 2);
    bytes::lemma_be_bytes_len(2, 2);
    match rhs {
        RhsSpec::ManufacturedOnesV1 => {
            assert(input.subrange(0, 2) =~= bytes::be_bytes(1, 2));
            assert(input.skip(2) =~= rest);
            lemma_reads(input, 0, 1, 2);
        },
        RhsSpec::SeededPeriodicDyadicV1 {
            period_bits,
            fractional_bits,
            minimum_mantissa,
            maximum_mantissa,
        } => {
            let minimum = bytes::twos_complement_64(minimum_mantissa);
            let maximum = bytes::twos_complement_64(maximum_mantissa);
            bytes::lemma_be_bytes_len(period_bits as nat, 1);
            bytes::lemma_be_bytes_len(fractional_bits as nat, 1);
            bytes::lemma_be_bytes_len(minimum, 8);
            bytes::lemma_be_bytes_len(maximum, 8);
            assert(input.subrange(0, 2) =~= bytes::be_bytes(2, 2));
            assert(input.subrange(2, 3) =~= bytes::be_bytes(period_bits as nat, 1));
            assert(input.subrange(3, 4) =~= bytes::be_bytes(fractional_bits as nat, 1));
            assert(input.subrange(4, 12) =~= bytes::be_bytes(minimum, 8));
            assert(input.subrange(12, 20) =~= bytes::be_bytes(maximum, 8));
            assert(input.skip(20) =~= rest);
            lemma_reads(input, 0, 2, 2);
            lemma_reads(input, 2, period_bits as nat, 1);
            lemma_reads(input, 3, fractional_bits as nat, 1);
            lemma_reads(input, 4, minimum, 8);
            lemma_reads(input, 12, maximum, 8);
        },
    }
}

/// Right-hand-side specifications are bound by their canonical bytes, whatever
/// follows.
pub proof fn rhs_encodings_bind_rhs(
    first: RhsSpec,
    first_rest: Seq<u8>,
    second: RhsSpec,
    second_rest: Seq<u8>,
)
    requires
        problem::rhs_encoding(first) + first_rest == problem::rhs_encoding(second) + second_rest,
    ensures
        first == second,
        first_rest == second_rest,
{
    let input = problem::rhs_encoding(first) + first_rest;
    lemma_rhs_reads(first, first_rest, input);
    lemma_rhs_reads(second, second_rest, input);
}

proof fn lemma_outputs(first: Seq<RequestedOutput>, second: Seq<RequestedOutput>)
    requires
        first.len() <= u32::MAX,
        second.len() <= u32::MAX,
        problem::outputs_encoding(first) == problem::outputs_encoding(second),
    ensures
        first == second,
{
    bytes::lemma_byte_powers();
    lemma_number(
        first.len(),
        problem::outputs_tags(first.len()),
        second.len(),
        problem::outputs_tags(second.len()),
        4,
    );
    assert forall|index: int| 0 <= index < first.len() implies first[index] == second[index] by {
        assert(first[index] is SquaredL2ResidualV1 && second[index] is SquaredL2ResidualV1);
    }
    assert(first =~= second);
}

/// Behind the randomness, equal bytes say that the parts that templates and
/// problems share are equal.
proof fn lemma_common(
    first_matrix: MatrixRecipe,
    first_rhs: RhsSpec,
    first_outputs: Seq<RequestedOutput>,
    second_matrix: MatrixRecipe,
    second_rhs: RhsSpec,
    second_outputs: Seq<RequestedOutput>,
)
    requires
        sized_matrix(first_matrix),
        sized_matrix(second_matrix),
        first_outputs.len() <= u32::MAX,
        second_outputs.len() <= u32::MAX,
        problem::matrix_encoding(first_matrix) + (problem::rhs_encoding(first_rhs)
            + problem::outputs_encoding(first_outputs)) == problem::matrix_encoding(second_matrix)
            + (problem::rhs_encoding(second_rhs) + problem::outputs_encoding(second_outputs)),
    ensures
        first_matrix == second_matrix,
        first_rhs == second_rhs,
        first_outputs == second_outputs,
{
    let first_outputs_bytes = problem::outputs_encoding(first_outputs);
    let second_outputs_bytes = problem::outputs_encoding(second_outputs);
    matrix_encodings_bind_matrices(
        first_matrix,
        problem::rhs_encoding(first_rhs) + first_outputs_bytes,
        second_matrix,
        problem::rhs_encoding(second_rhs) + second_outputs_bytes,
    );
    rhs_encodings_bind_rhs(first_rhs, first_outputs_bytes, second_rhs, second_outputs_bytes);
    lemma_outputs(first_outputs, second_outputs);
}

/// What a template encoding holds behind its randomness policy.
spec fn template_tail(template: TemplateModel) -> Seq<u8> {
    problem::matrix_encoding(template.matrix) + (problem::rhs_encoding(template.rhs)
        + problem::outputs_encoding(template.outputs))
}

/// The template digest is taken of bytes that bind the template: two templates
/// with the same canonical bytes are the same.
pub proof fn template_encodings_bind_templates(first: TemplateModel, second: TemplateModel)
    requires
        sized_template(first),
        sized_template(second),
        problem::template_encoding(first) == problem::template_encoding(second),
    ensures
        first == second,
{
    let first_tail = template_tail(first);
    let second_tail = template_tail(second);
    let first_policy = randomness::policy_encoding(first.randomness) + first_tail;
    let second_policy = randomness::policy_encoding(second.randomness) + second_tail;
    bytes::lemma_byte_powers();
    bytes::lemma_be_bytes_len(1, 2);
    bytes::lemma_be_bytes_len(2, 2);
    assert(problem::template_encoding(first) =~= bytes::be_bytes(1, 2) + first_policy);
    assert(problem::template_encoding(second) =~= bytes::be_bytes(1, 2) + second_policy);
    lemma_number(1, first_policy, 1, second_policy, 2);
    lemma_policy(first.randomness, first_tail, second.randomness, second_tail);
    lemma_common(
        first.matrix,
        first.rhs,
        first.outputs,
        second.matrix,
        second.rhs,
        second.outputs,
    );
}

/// The seed of a literal policy follows its tag; a derived one is only a tag.
spec fn policy_body(policy: TemplateRandomnessModel) -> Seq<u8> {
    match policy {
        TemplateRandomnessModel::Literal { seed } => seed,
        TemplateRandomnessModel::ChallengeDerived { .. } => bytes::be_bytes(1, 2),
    }
}

spec fn policy_tag(policy: TemplateRandomnessModel) -> nat {
    match policy {
        TemplateRandomnessModel::Literal { .. } => 1,
        TemplateRandomnessModel::ChallengeDerived { .. } => 2,
    }
}

proof fn lemma_policy(
    first: TemplateRandomnessModel,
    first_rest: Seq<u8>,
    second: TemplateRandomnessModel,
    second_rest: Seq<u8>,
)
    requires
        first matches TemplateRandomnessModel::Literal { seed } ==> seed.len() == 32,
        second matches TemplateRandomnessModel::Literal { seed } ==> seed.len() == 32,
        randomness::policy_encoding(first) + first_rest == randomness::policy_encoding(second)
            + second_rest,
    ensures
        first == second,
        first_rest == second_rest,
{
    let first_body = policy_body(first) + first_rest;
    let second_body = policy_body(second) + second_rest;
    bytes::lemma_byte_powers();
    bytes::lemma_be_bytes_len(1, 2);
    assert(randomness::policy_encoding(first) + first_rest =~= bytes::be_bytes(policy_tag(first), 2)
        + first_body);
    assert(randomness::policy_encoding(second) + second_rest =~= bytes::be_bytes(
        policy_tag(second),
        2,
    ) + second_body);
    lemma_number(policy_tag(first), first_body, policy_tag(second), second_body, 2);
    lemma_split(policy_body(first), first_rest, policy_body(second), second_rest);
}

/// What a record of challenge-derived randomness holds behind its two tags.
spec fn derived_body(record: RandomnessModel) -> Seq<u8>
    recommends
        record is ChallengeDerived,
{
    record->template_digest + (bytes::be_bytes(1, 2) + (canonical::framed(record->context) + (
    record->context_digest + record->ChallengeDerived_seed)))
}

proof fn lemma_derived(
    first: RandomnessModel,
    first_rest: Seq<u8>,
    second: RandomnessModel,
    second_rest: Seq<u8>,
)
    requires
        first is ChallengeDerived,
        second is ChallengeDerived,
        sized_record(first),
        sized_record(second),
        derived_body(first) + first_rest == derived_body(second) + second_rest,
    ensures
        first == second,
        first_rest == second_rest,
{
    let first_seed = first->ChallengeDerived_seed + first_rest;
    let second_seed = second->ChallengeDerived_seed + second_rest;
    let first_digest = first->context_digest + first_seed;
    let second_digest = second->context_digest + second_seed;
    let first_context = canonical::framed(first->context) + first_digest;
    let second_context = canonical::framed(second->context) + second_digest;
    let first_tag = bytes::be_bytes(1, 2) + first_context;
    let second_tag = bytes::be_bytes(1, 2) + second_context;
    bytes::lemma_byte_powers();
    assert(derived_body(first) + first_rest =~= first->template_digest + first_tag);
    assert(derived_body(second) + second_rest =~= second->template_digest + second_tag);
    lemma_split(first->template_digest, first_tag, second->template_digest, second_tag);
    lemma_number(1, first_context, 1, second_context, 2);
    canonical::framing_is_unambiguous(
        first->context,
        first_digest,
        second->context,
        second_digest,
    );
    lemma_split(first->context_digest, first_seed, second->context_digest, second_seed);
    lemma_split(
        first->ChallengeDerived_seed,
        first_rest,
        second->ChallengeDerived_seed,
        second_rest,
    );
}

proof fn lemma_record_tag(record: RandomnessModel, rest: Seq<u8>, input: Seq<u8>)
    requires
        input == randomness::randomness_encoding(record) + rest,
    ensures
        match record {
            RandomnessModel::Literal { seed } => {
                &&& bytes::be_value(input.take(2)) == 1
                &&& input.skip(2) == seed + rest
            },
            RandomnessModel::ChallengeDerived { .. } => {
                &&& bytes::be_value(input.take(2)) == 2
                &&& input.skip(4) == derived_body(record) + rest
            },
        },
{
    bytes::lemma_byte_powers();
    bytes::lemma_be_bytes_len(1, 2);
    bytes::lemma_be_bytes_len(2, 2);
    bytes::lemma_be_round_trip(1, 2);
    bytes::lemma_be_round_trip(2, 2);
    match record {
        RandomnessModel::Literal { seed } => {
            assert(input.take(2) =~= bytes::be_bytes(1, 2));
            assert(input.skip(2) =~= seed + rest);
        },
        RandomnessModel::ChallengeDerived { .. } => {
            assert(input.take(2) =~= bytes::be_bytes(2, 2));
            assert(input.skip(4) =~= derived_body(record) + rest);
        },
    }
}

/// The problem digest is taken of bytes that bind the problem: two problems
/// with the same canonical bytes are the same.
pub proof fn problem_encodings_bind_problems(first: ProblemModel, second: ProblemModel)
    requires
        sized_problem(first),
        sized_problem(second),
        problem::problem_encoding(first) == problem::problem_encoding(second),
    ensures
        first == second,
{
    let first_tail = problem::matrix_encoding(first.matrix) + (problem::rhs_encoding(first.rhs)
        + problem::outputs_encoding(first.outputs));
    let second_tail = problem::matrix_encoding(second.matrix) + (problem::rhs_encoding(second.rhs)
        + problem::outputs_encoding(second.outputs));
    let first_record = randomness::randomness_encoding(first.randomness) + first_tail;
    let second_record = randomness::randomness_encoding(second.randomness) + second_tail;
    bytes::lemma_byte_powers();
    bytes::lemma_be_bytes_len(1, 2);
    assert(problem::problem_encoding(first) =~= bytes::be_bytes(1, 2) + first_record);
    assert(problem::problem_encoding(second) =~= bytes::be_bytes(1, 2) + second_record);
    lemma_number(1, first_record, 1, second_record, 2);
    lemma_record_tag(first.randomness, first_tail, first_record);
    lemma_record_tag(second.randomness, second_tail, second_record);
    if first.randomness is Literal {
        lemma_split(
            first.randomness->Literal_seed,
            first_tail,
            second.randomness->Literal_seed,
            second_tail,
        );
    } else {
        lemma_derived(first.randomness, first_tail, second.randomness, second_tail);
    }
    lemma_common(
        first.matrix,
        first.rhs,
        first.outputs,
        second.matrix,
        second.rhs,
        second.outputs,
    );
}

/// Valid templates and problems have lists and contexts that can be counted:
/// only the widths of seeds and digests have to be known besides.
pub proof fn valid_models_are_sized(template: TemplateModel, problem: ProblemModel)
    ensures
        template.error() is None && (template.randomness matches TemplateRandomnessModel::Literal {
            seed,
        } ==> seed.len() == 32) ==> sized_template(template),
        problem.error() is None && fixed_widths(problem.randomness) ==> sized_problem(problem),
{
}

/// What finalizing a template records: the template's own matrix, right-hand
/// side and outputs, and either its literal seed or the template digest, the
/// whole context, the digest of that context, and the seed derived from both.
pub proof fn finalization_records_template_and_context(
    template: TemplateModel,
    context: Seq<u8>,
    finalized: ProblemModel,
)
    requires
        problem::finalized(template, context) == Ok::<ProblemModel, ProblemError>(finalized),
    ensures
        template.error() is None,
        finalized.matrix == template.matrix,
        finalized.rhs == template.rhs,
        finalized.outputs == template.outputs,
        match template.randomness {
            TemplateRandomnessModel::Literal { seed } => {
                &&& context.len() == 0
                &&& finalized.randomness == (RandomnessModel::Literal { seed })
            },
            TemplateRandomnessModel::ChallengeDerived { derivation } => {
                &&& context.len() <= randomness::MAX_CHALLENGE_CONTEXT_BYTES
                &&& finalized.randomness matches RandomnessModel::ChallengeDerived {
                    derivation: recorded,
                    template_digest,
                    context: kept,
                    context_digest,
                    seed,
                }
                &&& recorded == derivation
                &&& template_digest == problem::template_digest(template)
                &&& kept == context
                &&& context_digest == randomness::context_digest_bytes(context)
                &&& seed == randomness::instance_seed_bytes(template_digest, context)
            },
        },
{
}

/// When a template can be finalized: it is valid, and the context is empty for a
/// literal seed and not too long for a derived one.
pub proof fn finalization_succeeds_for_valid_templates(template: TemplateModel, context: Seq<u8>)
    ensures
        problem::finalized(template, context) is Ok <==> template.error() is None && (if template.randomness is Literal {
            context.len() == 0
        } else {
            context.len() <= randomness::MAX_CHALLENGE_CONTEXT_BYTES
        }),
{
}

/// Different contexts give problems whose seeds are derived from different
/// bytes, and so do different template digests.
pub proof fn finalized_seeds_bind_template_and_context(
    first: TemplateModel,
    first_context: Seq<u8>,
    second: TemplateModel,
    second_context: Seq<u8>,
) -> (inputs: (Seq<u8>, Seq<u8>))
    requires
        first.randomness is ChallengeDerived,
        second.randomness is ChallengeDerived,
        problem::finalized(first, first_context) is Ok,
        problem::finalized(second, second_context) is Ok,
        problem::template_digest(first).len() == 32,
        problem::template_digest(second).len() == 32,
    ensures
        problem::finalized(first, first_context)->Ok_0.randomness.seed()
            == hashing::blake3_derived_bytes(
            "sparse-solve/problem-instance-seed/v1"@,
            inputs.0,
            0,
            32,
        ),
        problem::finalized(second, second_context)->Ok_0.randomness.seed()
            == hashing::blake3_derived_bytes(
            "sparse-solve/problem-instance-seed/v1"@,
            inputs.1,
            0,
            32,
        ),
        inputs.0 == inputs.1 ==> first_context == second_context && problem::template_digest(first)
            == problem::template_digest(second),
{
    digest_laws::instance_seeds_bind_template_and_context(
        problem::template_digest(first),
        first_context,
        problem::template_digest(second),
        second_context,
    )
}

/// When a finalized problem is valid: its recipe is, and every derived value in
/// its record is the one that its template and its context give.
pub proof fn problems_are_valid_as_their_record_says(finalized: ProblemModel)
    ensures
        finalized.error() is None <==> {
            &&& finalized.template().error() is None
            &&& finalized.randomness matches RandomnessModel::ChallengeDerived {
                template_digest,
                context,
                context_digest,
                seed,
                ..
            } ==> {
                &&& template_digest == problem::template_digest(finalized.template())
                &&& context.len() <= randomness::MAX_CHALLENGE_CONTEXT_BYTES
                &&& context_digest == randomness::context_digest_bytes(context)
                &&& seed == randomness::instance_seed_bytes(template_digest, context)
            }
        },
        finalized.template().matrix == finalized.matrix,
        finalized.template().rhs == finalized.rhs,
        finalized.template().outputs == finalized.outputs,
        finalized.template().randomness is Literal <==> finalized.randomness is Literal,
        finalized.randomness matches RandomnessModel::Literal { seed }
            ==> finalized.template().randomness == (TemplateRandomnessModel::Literal { seed }),
        finalized.randomness matches RandomnessModel::Literal { seed }
            ==> finalized.randomness.seed() == seed,
{
}

/// When a template is valid: it asks for exactly the one registered output, and
/// its matrix and right-hand side are valid.
pub proof fn templates_are_valid_in_every_part(template: TemplateModel)
    ensures
        template.error() is None <==> {
            &&& template.outputs.len() == 1
            &&& problem::matrix_error(template.matrix) is None
            &&& problem::rhs_error(template.rhs) is None
        },
{
    if template.outputs.len() == 1 {
        assert(template.outputs[0] == RequestedOutput::SquaredL2ResidualV1);
        assert(template.outputs =~= seq![RequestedOutput::SquaredL2ResidualV1]);
    }
}

/// When a right-hand side is valid: a manufactured one always, a seeded one with
/// an ordered range of mantissas that binary64 holds exactly and with a period
/// and a scale within their limits.
pub proof fn rhs_validity(rhs: RhsSpec)
    ensures
        problem::rhs_error(rhs) is None <==> (rhs matches RhsSpec::SeededPeriodicDyadicV1 {
            period_bits,
            fractional_bits,
            minimum_mantissa,
            maximum_mantissa,
        } ==> {
            &&& period_bits <= 16
            &&& fractional_bits <= 52
            &&& minimum_mantissa <= maximum_mantissa
            &&& -0x1f_ffff_ffff_ffff <= minimum_mantissa
            &&& maximum_mantissa <= 0x1f_ffff_ffff_ffff
        }),
{
}

/// When the edge diagonals of a shifted Laplacian are valid: their offsets
/// increase strictly from one and stay below the dimension, their periods are
/// within the limit, and their weights form nonempty ranges of positive numbers.
proof fn lemma_edge_validity(edges: Seq<SymmetricDiaEdge>, dimension: u64, count: nat)
    requires
        count <= edges.len(),
        problem::incident_bound(edges, edges.len()) <= u64::MAX,
    ensures
        problem::edges_error(edges, dimension, count) is None <==> forall|k: int|
            0 <= k < count ==> valid_edge(edges, dimension, k),
    decreases count,
{
    if count > 0 {
        lemma_edge_validity(edges, dimension, (count - 1) as nat);
        lemma_incident_grows(edges, count, edges.len());
        assert(valid_edge(edges, dimension, count - 1) <==> problem::edge_error(
            edges,
            dimension,
            count - 1,
        ) is None);
    }
}

proof fn lemma_incident_grows(edges: Seq<SymmetricDiaEdge>, fewer: nat, count: nat)
    requires
        fewer <= count,
    ensures
        problem::incident_bound(edges, fewer) <= problem::incident_bound(edges, count),
    decreases count,
{
    if fewer < count {
        lemma_incident_grows(edges, fewer, (count - 1) as nat);
    }
}

/// Whether one edge diagonal is valid among those before it.
pub open spec fn valid_edge(edges: Seq<SymmetricDiaEdge>, dimension: u64, index: int) -> bool {
    let edge = edges[index];
    &&& edge.period_bits <= 16
    &&& 0 < edge.positive_offset < dimension
    &&& index > 0 ==> edges[index - 1].positive_offset < edge.positive_offset
    &&& 0 < edge.minimum_weight_mantissa <= edge.maximum_weight_mantissa
}

/// When a matrix is valid. Every family needs a dimension from two up to 2^30
/// and a scale of at most 52 bits; the symmetric ones a positive margin and
/// diagonals that binary64 holds exactly, the row-sparse one a band below the
/// dimension that its rows fit into and a nonempty range of nonzero mantissas
/// that binary64 holds exactly.
pub proof fn matrix_validity(matrix: MatrixRecipe)
    ensures
        problem::matrix_error(matrix) is None <==> {
            &&& 2 <= matrix.dimension() <= 0x4000_0000
            &&& match matrix {
                MatrixRecipe::Tridiagonal {
                    period_bits,
                    fractional_bits,
                    minimum,
                    maximum,
                    margin,
                    ..
                } => {
                    &&& period_bits <= 16
                    &&& fractional_bits <= 52
                    &&& 0 < minimum <= maximum
                    &&& 0 < margin
                    &&& 2 * maximum + margin <= 0x1f_ffff_ffff_ffff
                },
                MatrixRecipe::DiaLaplacian { fractional_bits, shift, edges, dimension, .. } => {
                    &&& fractional_bits <= 52
                    &&& 0 < shift
                    &&& 0 < edges.len() <= 127
                    &&& forall|k: int|
                        0 <= k < edges.len() ==> valid_edge(edges, dimension, k)
                    &&& problem::incident_bound(edges, edges.len()) + shift
                        <= 0x1f_ffff_ffff_ffff
                },
                MatrixRecipe::RowSparse {
                    dimension,
                    row_pattern_bits,
                    half_bandwidth,
                    row_width,
                    fractional_bits,
                    minimum,
                    maximum,
                    ..
                } => {
                    &&& row_pattern_bits <= 16
                    &&& fractional_bits <= 52
                    &&& half_bandwidth < dimension
                    &&& 0 < row_width <= 2 * half_bandwidth + 1
                    &&& minimum <= maximum
                    &&& minimum != 0 || maximum != 0
                    &&& -0x1f_ffff_ffff_ffff <= minimum
                    &&& maximum <= 0x1f_ffff_ffff_ffff
                },
            }
        },
{
    if let MatrixRecipe::DiaLaplacian { dimension, edges, .. } = matrix {
        if problem::incident_bound(edges, edges.len()) <= u64::MAX {
            lemma_edge_validity(edges, dimension, edges.len());
        }
    }
}

} // verus!
