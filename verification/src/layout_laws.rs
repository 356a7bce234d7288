//! What a reader finds in canonical bytes, field by field, and what every digest
//! and derived seed is taken of.

use vstd::prelude::*;

use crate::artifact;
use crate::bytes;
use crate::canonical;
use crate::canonical::CanonicalEncode;
use crate::certificate;
use crate::certificate::{
    CertificateModel, CertifiedScore, DefectMetrics, FastConsistencyMetrics, ResidualMetrics,
    SignedCertificateModel, ValidationManifest,
};
use crate::certificate_laws;
use crate::hashing;
use crate::opening;
use crate::opening::StreamsModel;
use crate::pcs;
use crate::pcs::ClaimsModel;
use crate::problem;
use crate::problem::{MatrixRecipe, ProblemModel, RhsSpec, SymmetricDiaEdge, TemplateModel};
use crate::protocol;
use crate::protocol::{ChallengeModel, ProofProtocol, SignedChallengeModel};
use crate::randomness;
use crate::randomness::{RandomnessModel, TemplateRandomnessModel};
use crate::solution;
use crate::statement;
use crate::statement::StatementModel;

verus! {

/// Whether bytes hold fields from one on, each a value in a width, and nothing
/// else: the first bytes of each width are the value, most significant first.
pub open spec fn reads_from(encoded: Seq<u8>, fields: Seq<(nat, nat)>, from: nat) -> bool
    decreases fields.len() - from,
{
    if from >= fields.len() {
        encoded.len() == 0
    } else {
        let (value, width) = fields[from as int];
        &&& width <= encoded.len()
        &&& bytes::be_value(encoded.take(width as int)) == value
        &&& reads_from(encoded.skip(width as int), fields, from + 1)
    }
}

/// Whether bytes hold these fields and nothing else.
pub open spec fn reads(encoded: Seq<u8>, fields: Seq<(nat, nat)>) -> bool {
    reads_from(encoded, fields, 0)
}

/// A byte string as a field of its own length.
pub open spec fn whole(content: Seq<u8>) -> (nat, nat) {
    (bytes::be_value(content), content.len())
}

/// The length of a byte string as a field of eight bytes.
pub open spec fn length_of(content: Seq<u8>) -> (nat, nat) {
    (content.len(), 8)
}

/// The two's complement of a signed number.
pub open spec fn image(value: i64) -> nat {
    if value < 0 {
        (0x1_0000_0000_0000_0000 + value) as nat
    } else {
        value as nat
    }
}

/// The encoding of a text.
pub open spec fn utf8(text: Seq<char>) -> Seq<u8> {
    vstd::utf8::encode_utf8(text)
}

spec fn spelled_from(fields: Seq<(nat, nat)>, from: nat) -> Seq<u8>
    decreases fields.len() - from,
{
    if from >= fields.len() {
        Seq::empty()
    } else {
        bytes::be_bytes(fields[from as int].0, fields[from as int].1) + spelled_from(
            fields,
            from + 1,
        )
    }
}

spec fn spelled_to(fields: Seq<(nat, nat)>, count: nat) -> Seq<u8>
    decreases count,
{
    if count == 0 {
        Seq::empty()
    } else {
        spelled_to(fields, (count - 1) as nat) + bytes::be_bytes(
            fields[count - 1].0,
            fields[count - 1].1,
        )
    }
}

proof fn lemma_spelled(fields: Seq<(nat, nat)>, count: nat)
    requires
        count <= fields.len(),
    ensures
        spelled_to(fields, count) + spelled_from(fields, count) == spelled_from(fields, 0),
    decreases count,
{
    if count == 0 {
        assert(spelled_to(fields, 0) + spelled_from(fields, 0) =~= spelled_from(fields, 0));
    } else {
        let fewer = (count - 1) as nat;
        lemma_spelled(fields, fewer);
        assert(spelled_to(fields, count) + spelled_from(fields, count) =~= spelled_to(
            fields,
            fewer,
        ) + spelled_from(fields, fewer));
    }
}

/// What was spelled field after field reads so.
proof fn lemma_reads_all(encoded: Seq<u8>, fields: Seq<(nat, nat)>)
    requires
        fits(fields),
        encoded == spelled_to(fields, fields.len()),
    ensures
        reads(encoded, fields),
{
    lemma_spelled(fields, fields.len());
    assert(spelled_to(fields, fields.len()) + spelled_from(fields, fields.len()) =~= spelled_to(
        fields,
        fields.len(),
    ));
    lemma_reads(fields, 0);
}

/// One more field at the end.
proof fn lemma_next(fields: Seq<(nat, nat)>, count: nat, value: nat, width: nat)
    requires
        count < fields.len(),
        fields[count as int] == (value, width),
    ensures
        spelled_to(fields, count + 1) == spelled_to(fields, count) + bytes::be_bytes(value, width),
{
}

/// The first field stands alone.
proof fn lemma_first(fields: Seq<(nat, nat)>)
    requires
        0 < fields.len(),
    ensures
        spelled_to(fields, 1) == bytes::be_bytes(fields[0].0, fields[0].1),
{
    assert(spelled_to(fields, 0) + bytes::be_bytes(fields[0].0, fields[0].1) =~= bytes::be_bytes(
        fields[0].0,
        fields[0].1,
    ));
    lemma_next(fields, 0, fields[0].0, fields[0].1);
}

/// One more byte string at the end, with its length before it.
proof fn lemma_next_framed(fields: Seq<(nat, nat)>, count: nat, content: Seq<u8>)
    requires
        count + 1 < fields.len(),
        fields[count as int] == length_of(content),
        fields[count as int + 1] == whole(content),
    ensures
        spelled_to(fields, count + 2) == spelled_to(fields, count) + canonical::framed(content),
{
    lemma_next(fields, count, content.len(), 8);
    lemma_next(fields, count + 1, whole(content).0, whole(content).1);
    lemma_whole(content);
    assert(spelled_to(fields, count) + bytes::be_bytes(content.len(), 8) + content =~= spelled_to(
        fields,
        count,
    ) + canonical::framed(content));
}

spec fn fits(fields: Seq<(nat, nat)>) -> bool {
    forall|i: int|
        0 <= i < fields.len() ==> (#[trigger] fields[i]).0 < bytes::byte_power(fields[i].1)
}

proof fn lemma_reads(fields: Seq<(nat, nat)>, from: nat)
    requires
        fits(fields),
    ensures
        reads_from(spelled_from(fields, from), fields, from),
    decreases fields.len() - from,
{
    if from < fields.len() {
        let (value, width) = fields[from as int];
        let spelled = spelled_from(fields, from);
        lemma_reads(fields, from + 1);
        bytes::lemma_be_bytes_len(value, width);
        bytes::lemma_be_round_trip(value, width);
        assert(spelled.take(width as int) =~= bytes::be_bytes(value, width));
        assert(spelled.skip(width as int) =~= spelled_from(fields, from + 1));
    }
}

proof fn lemma_whole(content: Seq<u8>)
    ensures
        bytes::be_bytes(whole(content).0, whole(content).1) == content,
        whole(content).0 < bytes::byte_power(whole(content).1),
{
    bytes::lemma_be_bytes_of_value(content);
    bytes::lemma_be_value_bound(content);
}

/// Big-endian numbers end with their lowest byte, little-endian ones begin with
/// it.
pub proof fn numbers_are_read_by_their_order(others: Seq<u8>, lowest: u8)
    ensures
        bytes::be_value(others.push(lowest)) == 256 * bytes::be_value(others) + lowest,
        bytes::le_value(seq![lowest] + others) == 256 * bytes::le_value(others) + lowest,
        bytes::be_value(Seq::empty()) == 0,
        bytes::le_value(Seq::empty()) == 0,
{
    assert(others.push(lowest).drop_last() =~= others);
    assert((seq![lowest] + others).reverse() =~= others.reverse().push(lowest));
    assert(others.reverse().push(lowest).drop_last() =~= others.reverse());
    assert(Seq::<u8>::empty().reverse() =~= Seq::<u8>::empty());
}

/// A manifest is its version, its protocol and its three limits.
pub proof fn manifest_fields(manifest: ValidationManifest)
    ensures
        reads(
            certificate::manifest_encoding(manifest),
            seq![
                (1, 2),
                (manifest.protocol.id() as nat, 2),
                (manifest.max_solution_elements as nat, 8),
                (manifest.max_public_matrix_terms as nat, 8),
                (manifest.max_public_rhs_terms as nat, 8),
            ],
        ),
        manifest.protocol.id() == (match manifest.protocol {
            ProofProtocol::DirectReferenceV1 => 1,
            ProofProtocol::WhirField192L2V4 => 2,
            ProofProtocol::FastBinary64UnitCircleV3 => 4u16,
        }),
{
    let fields: Seq<(nat, nat)> = seq![
        (1, 2),
        (manifest.protocol.id() as nat, 2),
        (manifest.max_solution_elements as nat, 8),
        (manifest.max_public_matrix_terms as nat, 8),
        (manifest.max_public_rhs_terms as nat, 8),
    ];
    bytes::lemma_byte_powers();
    assert(fits(fields));
    lemma_first(fields);
    lemma_next(fields, 1, fields[1].0, fields[1].1);
    lemma_next(fields, 2, fields[2].0, fields[2].1);
    lemma_next(fields, 3, fields[3].0, fields[3].1);
    lemma_next(fields, 4, fields[4].0, fields[4].1);
    assert(certificate::manifest_encoding(manifest) =~= spelled_to(fields, 5));
    lemma_reads_all(certificate::manifest_encoding(manifest), fields);
}

/// A challenge is its version, both identifiers with their lengths, both times,
/// the entropy, the template's digest and its retry policy.
pub proof fn challenge_fields(challenge: ChallengeModel)
    requires
        challenge.entropy.len() == 32,
        challenge.template_digest.len() == 32,
        protocol::challenge_error(challenge) is None,
    ensures
        reads(
            protocol::challenge_encoding(challenge),
            seq![
                (1, 2),
                length_of(utf8(challenge.issuer)),
                whole(utf8(challenge.issuer)),
                length_of(utf8(challenge.key_id)),
                whole(utf8(challenge.key_id)),
                (image(challenge.issued_at), 8),
                (image(challenge.expires_at), 8),
                whole(challenge.entropy),
                whole(challenge.template_digest),
                (1, 2),
            ],
        ),
{
    let fields: Seq<(nat, nat)> = seq![
        (1, 2),
        length_of(utf8(challenge.issuer)),
        whole(utf8(challenge.issuer)),
        length_of(utf8(challenge.key_id)),
        whole(utf8(challenge.key_id)),
        (image(challenge.issued_at), 8),
        (image(challenge.expires_at), 8),
        whole(challenge.entropy),
        whole(challenge.template_digest),
        (1, 2),
    ];
    bytes::lemma_byte_powers();
    lemma_whole(utf8(challenge.issuer));
    lemma_whole(utf8(challenge.key_id));
    lemma_whole(challenge.entropy);
    lemma_whole(challenge.template_digest);
    assert(fits(fields));
    lemma_first(fields);
    lemma_next_framed(fields, 1, utf8(challenge.issuer));
    lemma_next_framed(fields, 3, utf8(challenge.key_id));
    lemma_next(fields, 5, image(challenge.issued_at), 8);
    lemma_next(fields, 6, image(challenge.expires_at), 8);
    lemma_next(fields, 7, fields[7].0, 32);
    lemma_next(fields, 8, fields[8].0, 32);
    lemma_next(fields, 9, 1, 2);
    lemma_reads_all(protocol::challenge_encoding(challenge), fields);
}

/// A signed challenge is the challenge and then its signature.
pub proof fn signed_challenges_end_with_the_signature(challenge: SignedChallengeModel)
    requires
        challenge.signature.len() == 64,
    ensures
        ({
            let encoded = protocol::signed_challenge_bytes(challenge);
            let split = encoded.len() - 64;
            &&& encoded.take(split) == protocol::challenge_encoding(challenge.payload)
            &&& encoded.skip(split) == challenge.signature
        }),
{
    let encoded = protocol::signed_challenge_bytes(challenge);
    let split = encoded.len() - 64;
    assert(encoded.take(split) =~= protocol::challenge_encoding(challenge.payload));
    assert(encoded.skip(split) =~= challenge.signature);
}

/// An artifact is its magic number, its version, its protocol and its flag, then
/// the challenge, the problem and the manifest with their lengths, then the
/// payload in its frame and an empty final frame.
pub proof fn artifact_fields(
    selected: ProofProtocol,
    challenge: Option<SignedChallengeModel>,
    problem_json: Seq<u8>,
    manifest_json: Seq<u8>,
    payload: Seq<u8>,
)
    requires
        artifact::challenge_frame_bytes(challenge).len() <= u64::MAX,
        problem_json.len() <= u64::MAX,
        manifest_json.len() <= u64::MAX,
        payload.len() <= u64::MAX,
    ensures
        reads(
            artifact::artifact_bytes(selected, challenge, problem_json, manifest_json, payload),
            seq![
                (0x5353_5641_5254_0000, 8),
                (1, 2),
                (selected.id() as nat, 2),
                (
                    if challenge is Some {
                        1
                    } else {
                        0
                    },
                    4,
                ),
                length_of(artifact::challenge_frame_bytes(challenge)),
                whole(artifact::challenge_frame_bytes(challenge)),
                length_of(problem_json),
                whole(problem_json),
                length_of(manifest_json),
                whole(manifest_json),
                (1, 2),
                (1, 2),
                length_of(payload),
                whole(payload),
                (0xffff, 2),
                (1, 2),
                (0, 8),
            ],
        ),
        artifact::challenge_frame_bytes(None) == Seq::<u8>::empty(),
        challenge matches Some(signed) ==> artifact::challenge_frame_bytes(challenge)
            == protocol::signed_challenge_bytes(signed),
{
    let frame = artifact::challenge_frame_bytes(challenge);
    let fields: Seq<(nat, nat)> = seq![
        (0x5353_5641_5254_0000, 8),
        (1, 2),
        (selected.id() as nat, 2),
        (
            if challenge is Some {
                1
            } else {
                0
            },
            4,
        ),
        length_of(frame),
        whole(frame),
        length_of(problem_json),
        whole(problem_json),
        length_of(manifest_json),
        whole(manifest_json),
        (1, 2),
        (1, 2),
        length_of(payload),
        whole(payload),
        (0xffff, 2),
        (1, 2),
        (0, 8),
    ];
    bytes::lemma_byte_powers();
    lemma_whole(frame);
    lemma_whole(problem_json);
    lemma_whole(manifest_json);
    lemma_whole(payload);
    assert(fits(fields));
    let flag = fields[3].0;
    lemma_next(fields, 0, 0x5353_5641_5254_0000, 8);
    lemma_next(fields, 1, 1, 2);
    lemma_next(fields, 2, selected.id() as nat, 2);
    lemma_next(fields, 3, flag, 4);
    assert(spelled_to(fields, 4) =~= artifact::header_bytes(selected, challenge is Some));
    lemma_next_framed(fields, 4, frame);
    lemma_next_framed(fields, 6, problem_json);
    lemma_next_framed(fields, 8, manifest_json);
    let start = spelled_to(fields, 10);
    lemma_next(fields, 10, 1, 2);
    lemma_next(fields, 11, 1, 2);
    lemma_next(fields, 12, payload.len(), 8);
    lemma_next(fields, 13, whole(payload).0, whole(payload).1);
    lemma_next(fields, 14, 0xffff, 2);
    lemma_next(fields, 15, 1, 2);
    lemma_next(fields, 16, 0, 8);
    assert(spelled_to(fields, 17) =~= start + artifact::payload_bytes(payload));
    lemma_reads_all(
        artifact::artifact_bytes(selected, challenge, problem_json, manifest_json, payload),
        fields,
    );
}

/// A tridiagonal recipe is its family, its dimension, its boundary and table
/// rules, its period and scale, its range, and its diagonal rule with the margin.
pub proof fn tridiagonal_fields(recipe: MatrixRecipe)
    requires
        recipe is Tridiagonal,
    ensures
        reads(
            problem::matrix_encoding(recipe),
            seq![
                (1, 2),
                (recipe->Tridiagonal_dimension as nat, 8),
                (1, 2),
                (1, 2),
                (recipe->Tridiagonal_period_bits as nat, 1),
                (recipe->Tridiagonal_fractional_bits as nat, 1),
                (recipe->Tridiagonal_minimum as nat, 8),
                (recipe->Tridiagonal_maximum as nat, 8),
                (1, 2),
                (recipe->Tridiagonal_margin as nat, 8),
            ],
        ),
{
    let fields: Seq<(nat, nat)> = seq![
        (1, 2),
        (recipe->Tridiagonal_dimension as nat, 8),
        (1, 2),
        (1, 2),
        (recipe->Tridiagonal_period_bits as nat, 1),
        (recipe->Tridiagonal_fractional_bits as nat, 1),
        (recipe->Tridiagonal_minimum as nat, 8),
        (recipe->Tridiagonal_maximum as nat, 8),
        (1, 2),
        (recipe->Tridiagonal_margin as nat, 8),
    ];
    bytes::lemma_byte_powers();
    assert(fits(fields));
    lemma_first(fields);
    lemma_next(fields, 1, fields[1].0, fields[1].1);
    lemma_next(fields, 2, fields[2].0, fields[2].1);
    lemma_next(fields, 3, fields[3].0, fields[3].1);
    lemma_next(fields, 4, fields[4].0, fields[4].1);
    lemma_next(fields, 5, fields[5].0, fields[5].1);
    lemma_next(fields, 6, fields[6].0, fields[6].1);
    lemma_next(fields, 7, fields[7].0, fields[7].1);
    lemma_next(fields, 8, fields[8].0, fields[8].1);
    lemma_next(fields, 9, fields[9].0, fields[9].1);
    assert(problem::matrix_encoding(recipe) =~= spelled_to(fields, 10));
    lemma_reads_all(problem::matrix_encoding(recipe), fields);
}

/// A recipe for generated rows is its family, its dimension, its boundary, its
/// pattern bits, its band, its width, its scale and its range.
pub proof fn row_sparse_fields(recipe: MatrixRecipe)
    requires
        recipe is RowSparse,
    ensures
        reads(
            problem::matrix_encoding(recipe),
            seq![
                (3, 2),
                (recipe->RowSparse_dimension as nat, 8),
                (1, 2),
                (recipe->row_pattern_bits as nat, 1),
                (recipe->half_bandwidth as nat, 8),
                (recipe->row_width as nat, 1),
                (recipe->RowSparse_fractional_bits as nat, 1),
                (image(recipe->RowSparse_minimum), 8),
                (image(recipe->RowSparse_maximum), 8),
            ],
        ),
{
    let fields: Seq<(nat, nat)> = seq![
        (3, 2),
        (recipe->RowSparse_dimension as nat, 8),
        (1, 2),
        (recipe->row_pattern_bits as nat, 1),
        (recipe->half_bandwidth as nat, 8),
        (recipe->row_width as nat, 1),
        (recipe->RowSparse_fractional_bits as nat, 1),
        (image(recipe->RowSparse_minimum), 8),
        (image(recipe->RowSparse_maximum), 8),
    ];
    bytes::lemma_byte_powers();
    assert(fits(fields));
    lemma_first(fields);
    lemma_next(fields, 1, fields[1].0, fields[1].1);
    lemma_next(fields, 2, fields[2].0, fields[2].1);
    lemma_next(fields, 3, fields[3].0, fields[3].1);
    lemma_next(fields, 4, fields[4].0, fields[4].1);
    lemma_next(fields, 5, fields[5].0, fields[5].1);
    lemma_next(fields, 6, fields[6].0, fields[6].1);
    lemma_next(fields, 7, fields[7].0, fields[7].1);
    lemma_next(fields, 8, fields[8].0, fields[8].1);
    assert(problem::matrix_encoding(recipe) =~= spelled_to(fields, 9));
    lemma_reads_all(problem::matrix_encoding(recipe), fields);
}

proof fn lemma_edge(edges: Seq<SymmetricDiaEdge>, index: int)
    requires
        0 <= index < edges.len(),
    ensures
        problem::edges_encoding(edges).len() == 25 * edges.len(),
        problem::edges_encoding(edges).subrange(25 * index, 25 * index + 25)
            == problem::edge_encoding(edges[index]),
    decreases edges.len(),
{
    let before = edges.drop_last();
    let last = edges.last();
    bytes::lemma_be_bytes_len(last.positive_offset as nat, 8);
    bytes::lemma_be_bytes_len(last.period_bits as nat, 1);
    bytes::lemma_be_bytes_len(last.minimum_weight_mantissa as nat, 8);
    bytes::lemma_be_bytes_len(last.maximum_weight_mantissa as nat, 8);
    assert(problem::edge_encoding(last).len() == 25);
    if before.len() > 0 {
        lemma_edge(
            before,
            if index < before.len() {
                index
            } else {
                0
            },
        );
    }
    let encoded = problem::edges_encoding(edges);
    if index < before.len() {
        assert(encoded.subrange(25 * index, 25 * index + 25) =~= problem::edges_encoding(
            before,
        ).subrange(25 * index, 25 * index + 25));
    } else {
        assert(encoded.subrange(25 * index, 25 * index + 25) =~= problem::edge_encoding(last));
    }
}

/// A recipe for a shifted Laplacian is its family, its dimension, its boundary,
/// its scale, its shift and the number of its edge diagonals, and then each of
/// them in 25 bytes: its offset, its period and its range of weights.
pub proof fn laplacian_fields(recipe: MatrixRecipe, edge: int)
    requires
        recipe is DiaLaplacian,
        recipe->DiaLaplacian_edges.len() <= u64::MAX,
        0 <= edge < recipe->DiaLaplacian_edges.len(),
    ensures
        ({
            let encoded = problem::matrix_encoding(recipe);
            let edges = recipe->DiaLaplacian_edges;
            &&& encoded.len() == 29 + 25 * edges.len()
            &&& reads(
                encoded.take(29),
                seq![
                    (2, 2),
                    (recipe->DiaLaplacian_dimension as nat, 8),
                    (1, 2),
                    (recipe->DiaLaplacian_fractional_bits as nat, 1),
                    (recipe->DiaLaplacian_shift as nat, 8),
                    (edges.len(), 8),
                ],
            )
            &&& reads(
                encoded.subrange(29 + 25 * edge, 54 + 25 * edge),
                seq![
                    (edges[edge].positive_offset as nat, 8),
                    (edges[edge].period_bits as nat, 1),
                    (edges[edge].minimum_weight_mantissa as nat, 8),
                    (edges[edge].maximum_weight_mantissa as nat, 8),
                ],
            )
        }),
{
    let encoded = problem::matrix_encoding(recipe);
    let edges = recipe->DiaLaplacian_edges;
    let fields: Seq<(nat, nat)> = seq![
        (2, 2),
        (recipe->DiaLaplacian_dimension as nat, 8),
        (1, 2),
        (recipe->DiaLaplacian_fractional_bits as nat, 1),
        (recipe->DiaLaplacian_shift as nat, 8),
        (edges.len(), 8),
    ];
    let edge_fields: Seq<(nat, nat)> = seq![
        (edges[edge].positive_offset as nat, 8),
        (edges[edge].period_bits as nat, 1),
        (edges[edge].minimum_weight_mantissa as nat, 8),
        (edges[edge].maximum_weight_mantissa as nat, 8),
    ];
    bytes::lemma_byte_powers();
    lemma_edge(edges, edge);
    bytes::lemma_be_bytes_len(2, 2);
    bytes::lemma_be_bytes_len(recipe->DiaLaplacian_dimension as nat, 8);
    bytes::lemma_be_bytes_len(1, 2);
    bytes::lemma_be_bytes_len(recipe->DiaLaplacian_fractional_bits as nat, 1);
    bytes::lemma_be_bytes_len(recipe->DiaLaplacian_shift as nat, 8);
    bytes::lemma_be_bytes_len(edges.len(), 8);
    assert(fits(fields));
    lemma_first(fields);
    lemma_next(fields, 1, fields[1].0, fields[1].1);
    lemma_next(fields, 2, fields[2].0, fields[2].1);
    lemma_next(fields, 3, fields[3].0, fields[3].1);
    lemma_next(fields, 4, fields[4].0, fields[4].1);
    lemma_next(fields, 5, fields[5].0, fields[5].1);
    assert(encoded.take(29) =~= spelled_to(fields, 6));
    lemma_reads_all(encoded.take(29), fields);
    assert(encoded.subrange(29 + 25 * edge, 54 + 25 * edge) =~= problem::edges_encoding(
        edges,
    ).subrange(25 * edge, 25 * edge + 25));
    assert(fits(edge_fields));
    lemma_first(edge_fields);
    lemma_next(edge_fields, 1, edge_fields[1].0, edge_fields[1].1);
    lemma_next(edge_fields, 2, edge_fields[2].0, edge_fields[2].1);
    lemma_next(edge_fields, 3, edge_fields[3].0, edge_fields[3].1);
    assert(problem::edge_encoding(edges[edge]) =~= spelled_to(edge_fields, 4));
    lemma_reads_all(problem::edge_encoding(edges[edge]), edge_fields);
}

/// A right-hand side is its kind, and a seeded one its period, its scale and its
/// range.
pub proof fn rhs_fields(rhs: RhsSpec)
    ensures
        rhs is ManufacturedOnesV1 ==> reads(problem::rhs_encoding(rhs), seq![(1, 2)]),
        rhs matches RhsSpec::SeededPeriodicDyadicV1 {
            period_bits,
            fractional_bits,
            minimum_mantissa,
            maximum_mantissa,
        } ==> reads(
            problem::rhs_encoding(rhs),
            seq![
                (2, 2),
                (period_bits as nat, 1),
                (fractional_bits as nat, 1),
                (image(minimum_mantissa), 8),
                (image(maximum_mantissa), 8),
            ],
        ),
{
    bytes::lemma_byte_powers();
    match rhs {
        RhsSpec::ManufacturedOnesV1 => {
            let fields: Seq<(nat, nat)> = seq![(1, 2)];
            assert(fits(fields));
            lemma_first(fields);
            assert(problem::rhs_encoding(rhs) =~= spelled_to(fields, 1));
            lemma_reads_all(problem::rhs_encoding(rhs), fields);
        },
        RhsSpec::SeededPeriodicDyadicV1 {
            period_bits,
            fractional_bits,
            minimum_mantissa,
            maximum_mantissa,
        } => {
            let fields: Seq<(nat, nat)> = seq![
                (2, 2),
                (period_bits as nat, 1),
                (fractional_bits as nat, 1),
                (image(minimum_mantissa), 8),
                (image(maximum_mantissa), 8),
            ];
            assert(fits(fields));
            lemma_first(fields);
            lemma_next(fields, 1, fields[1].0, fields[1].1);
            lemma_next(fields, 2, fields[2].0, fields[2].1);
            lemma_next(fields, 3, fields[3].0, fields[3].1);
            lemma_next(fields, 4, fields[4].0, fields[4].1);
            assert(problem::rhs_encoding(rhs) =~= spelled_to(fields, 5));
            lemma_reads_all(problem::rhs_encoding(rhs), fields);
        },
    }
}

/// Randomness is a literal seed, or how it is derived; a record of a derivation
/// holds the template's digest, the context with its length, the context's digest
/// and the seed.
pub proof fn randomness_fields(policy: TemplateRandomnessModel, record: RandomnessModel)
    ensures
        policy matches TemplateRandomnessModel::Literal { seed } ==> reads(
            randomness::policy_encoding(policy),
            seq![(1, 2), whole(seed)],
        ),
        policy is ChallengeDerived ==> reads(
            randomness::policy_encoding(policy),
            seq![(2, 2), (1, 2)],
        ),
        record matches RandomnessModel::Literal { seed } ==> reads(
            randomness::randomness_encoding(record),
            seq![(1, 2), whole(seed)],
        ),
        record matches RandomnessModel::ChallengeDerived {
            template_digest,
            context,
            context_digest,
            seed,
            ..
        } ==> (context.len() <= u64::MAX ==> reads(
            randomness::randomness_encoding(record),
            seq![
                (2, 2),
                (1, 2),
                whole(template_digest),
                (1, 2),
                length_of(context),
                whole(context),
                whole(context_digest),
                whole(seed),
            ],
        )),
{
    bytes::lemma_byte_powers();
    match policy {
        TemplateRandomnessModel::Literal { seed } => {
            let fields: Seq<(nat, nat)> = seq![(1, 2), whole(seed)];
            lemma_whole(seed);
            assert(fits(fields));
            lemma_first(fields);
            lemma_next(fields, 1, fields[1].0, fields[1].1);
            assert(randomness::policy_encoding(policy) =~= spelled_to(fields, 2));
            lemma_reads_all(randomness::policy_encoding(policy), fields);
        },
        TemplateRandomnessModel::ChallengeDerived { .. } => {
            let fields: Seq<(nat, nat)> = seq![(2, 2), (1, 2)];
            assert(fits(fields));
            lemma_first(fields);
            lemma_next(fields, 1, fields[1].0, fields[1].1);
            assert(randomness::policy_encoding(policy) =~= spelled_to(fields, 2));
            lemma_reads_all(randomness::policy_encoding(policy), fields);
        },
    }
    match record {
        RandomnessModel::Literal { seed } => {
            let fields: Seq<(nat, nat)> = seq![(1, 2), whole(seed)];
            lemma_whole(seed);
            assert(fits(fields));
            lemma_first(fields);
            lemma_next(fields, 1, fields[1].0, fields[1].1);
            assert(randomness::randomness_encoding(record) =~= spelled_to(fields, 2));
            lemma_reads_all(randomness::randomness_encoding(record), fields);
        },
        RandomnessModel::ChallengeDerived {
            template_digest,
            context,
            context_digest,
            seed,
            ..
        } => {
            if context.len() <= u64::MAX {
                let fields: Seq<(nat, nat)> = seq![
                    (2, 2),
                    (1, 2),
                    whole(template_digest),
                    (1, 2),
                    length_of(context),
                    whole(context),
                    whole(context_digest),
                    whole(seed),
                ];
                lemma_whole(template_digest);
                lemma_whole(context);
                lemma_whole(context_digest);
                lemma_whole(seed);
                assert(fits(fields));
                lemma_first(fields);
                lemma_next(fields, 1, 1, 2);
                lemma_next(fields, 2, fields[2].0, fields[2].1);
                lemma_next(fields, 3, 1, 2);
                lemma_next_framed(fields, 4, context);
                lemma_next(fields, 6, fields[6].0, fields[6].1);
                lemma_next(fields, 7, fields[7].0, fields[7].1);
                lemma_reads_all(randomness::randomness_encoding(record), fields);
            }
        },
    }
}

/// Templates and problems are their version, their randomness, their matrix,
/// their right-hand side and the one output that they ask for.
pub proof fn problem_fields(template: TemplateModel, finalized: ProblemModel)
    requires
        template.error() is None,
        finalized.error() is None,
    ensures
        reads(
            problem::template_encoding(template),
            seq![
                (1, 2),
                whole(randomness::policy_encoding(template.randomness)),
                whole(problem::matrix_encoding(template.matrix)),
                whole(problem::rhs_encoding(template.rhs)),
                (1, 4),
                (1, 2),
            ],
        ),
        reads(
            problem::problem_encoding(finalized),
            seq![
                (1, 2),
                whole(randomness::randomness_encoding(finalized.randomness)),
                whole(problem::matrix_encoding(finalized.matrix)),
                whole(problem::rhs_encoding(finalized.rhs)),
                (1, 4),
                (1, 2),
            ],
        ),
{
    bytes::lemma_byte_powers();
    reveal_with_fuel(problem::outputs_tags, 2);
    assert(template.outputs.len() == 1);
    assert(finalized.outputs.len() == 1);
    let of_template: Seq<(nat, nat)> = seq![
        (1, 2),
        whole(randomness::policy_encoding(template.randomness)),
        whole(problem::matrix_encoding(template.matrix)),
        whole(problem::rhs_encoding(template.rhs)),
        (1, 4),
        (1, 2),
    ];
    let of_problem: Seq<(nat, nat)> = seq![
        (1, 2),
        whole(randomness::randomness_encoding(finalized.randomness)),
        whole(problem::matrix_encoding(finalized.matrix)),
        whole(problem::rhs_encoding(finalized.rhs)),
        (1, 4),
        (1, 2),
    ];
    lemma_whole(randomness::policy_encoding(template.randomness));
    lemma_whole(problem::matrix_encoding(template.matrix));
    lemma_whole(problem::rhs_encoding(template.rhs));
    lemma_whole(randomness::randomness_encoding(finalized.randomness));
    lemma_whole(problem::matrix_encoding(finalized.matrix));
    lemma_whole(problem::rhs_encoding(finalized.rhs));
    assert(fits(of_template));
    lemma_first(of_template);
    lemma_next(of_template, 1, of_template[1].0, of_template[1].1);
    lemma_next(of_template, 2, of_template[2].0, of_template[2].1);
    lemma_next(of_template, 3, of_template[3].0, of_template[3].1);
    lemma_next(of_template, 4, of_template[4].0, of_template[4].1);
    lemma_next(of_template, 5, of_template[5].0, of_template[5].1);
    assert(problem::template_encoding(template) =~= spelled_to(of_template, 6));
    lemma_reads_all(problem::template_encoding(template), of_template);
    assert(fits(of_problem));
    lemma_first(of_problem);
    lemma_next(of_problem, 1, of_problem[1].0, of_problem[1].1);
    lemma_next(of_problem, 2, of_problem[2].0, of_problem[2].1);
    lemma_next(of_problem, 3, of_problem[3].0, of_problem[3].1);
    lemma_next(of_problem, 4, of_problem[4].0, of_problem[4].1);
    lemma_next(of_problem, 5, of_problem[5].0, of_problem[5].1);
    assert(problem::problem_encoding(finalized) =~= spelled_to(of_problem, 6));
    lemma_reads_all(problem::problem_encoding(finalized), of_problem);
}

/// Residual metrics are their four numbers, bit for bit.
pub proof fn residual_fields(metrics: ResidualMetrics)
    ensures
        reads(
            metrics.encoding(),
            seq![
                (metrics.squared_l2@ as nat, 8),
                (metrics.l2@ as nat, 8),
                (metrics.rms@ as nat, 8),
                (metrics.max_abs@ as nat, 8),
            ],
        ),
{
    let fields: Seq<(nat, nat)> = seq![
        (metrics.squared_l2@ as nat, 8),
        (metrics.l2@ as nat, 8),
        (metrics.rms@ as nat, 8),
        (metrics.max_abs@ as nat, 8),
    ];
    bytes::lemma_byte_powers();
    assert(fits(fields));
    lemma_first(fields);
    lemma_next(fields, 1, fields[1].0, fields[1].1);
    lemma_next(fields, 2, fields[2].0, fields[2].1);
    lemma_next(fields, 3, fields[3].0, fields[3].1);
    assert(metrics.encoding() =~= spelled_to(fields, 4));
    lemma_reads_all(metrics.encoding(), fields);
}

/// Defect metrics are their three numbers, bit for bit, and their count.
pub proof fn defect_fields(metrics: DefectMetrics)
    ensures
        reads(
            metrics.encoding(),
            seq![
                (metrics.maximum_absolute_defect@ as nat, 8),
                (metrics.maximum_normalized_defect@ as nat, 8),
                (metrics.rms_normalized_defect@ as nat, 8),
                (metrics.threshold_exceedances as nat, 8),
            ],
        ),
{
    let fields: Seq<(nat, nat)> = seq![
        (metrics.maximum_absolute_defect@ as nat, 8),
        (metrics.maximum_normalized_defect@ as nat, 8),
        (metrics.rms_normalized_defect@ as nat, 8),
        (metrics.threshold_exceedances as nat, 8),
    ];
    bytes::lemma_byte_powers();
    assert(fits(fields));
    lemma_first(fields);
    lemma_next(fields, 1, fields[1].0, fields[1].1);
    lemma_next(fields, 2, fields[2].0, fields[2].1);
    lemma_next(fields, 3, fields[3].0, fields[3].1);
    assert(metrics.encoding() =~= spelled_to(fields, 4));
    lemma_reads_all(metrics.encoding(), fields);
}

/// Consistency metrics are those of the four checks and the number of
/// trajectories.
pub proof fn consistency_fields(metrics: FastConsistencyMetrics)
    ensures
        reads(
            metrics.encoding(),
            seq![
                whole(metrics.norm_sumcheck.encoding()),
                whole(metrics.matvec_sumcheck.encoding()),
                whole(metrics.linear_opening.encoding()),
                whole(metrics.unit_circle_folds.encoding()),
                (metrics.recursive_query_trajectories as nat, 4),
            ],
        ),
{
    let fields: Seq<(nat, nat)> = seq![
        whole(metrics.norm_sumcheck.encoding()),
        whole(metrics.matvec_sumcheck.encoding()),
        whole(metrics.linear_opening.encoding()),
        whole(metrics.unit_circle_folds.encoding()),
        (metrics.recursive_query_trajectories as nat, 4),
    ];
    bytes::lemma_byte_powers();
    lemma_whole(metrics.norm_sumcheck.encoding());
    lemma_whole(metrics.matvec_sumcheck.encoding());
    lemma_whole(metrics.linear_opening.encoding());
    lemma_whole(metrics.unit_circle_folds.encoding());
    assert(fits(fields));
    lemma_first(fields);
    lemma_next(fields, 1, fields[1].0, fields[1].1);
    lemma_next(fields, 2, fields[2].0, fields[2].1);
    lemma_next(fields, 3, fields[3].0, fields[3].1);
    lemma_next(fields, 4, fields[4].0, fields[4].1);
    assert(metrics.encoding() =~= spelled_to(fields, 5));
    lemma_reads_all(metrics.encoding(), fields);
}

/// A score is its kind and its numbers.
pub proof fn score_fields(score: CertifiedScore)
    ensures
        match score {
            CertifiedScore::DirectBinary64ResidualV1 { residual } => reads(
                score.encoding(),
                seq![(1, 2), whole(residual.encoding())],
            ),
            CertifiedScore::ExactDyadicSquaredL2V1 { numerator, denominator_power } => reads(
                score.encoding(),
                seq![(2, 2), whole(numerator@), (denominator_power as nat, 4)],
            ),
            CertifiedScore::FastBinary64SquaredL2V1 { squared_l2, consistency } => reads(
                score.encoding(),
                seq![(3, 2), (squared_l2@ as nat, 8), whole(consistency.encoding())],
            ),
        },
{
    bytes::lemma_byte_powers();
    match score {
        CertifiedScore::DirectBinary64ResidualV1 { residual } => {
            let fields: Seq<(nat, nat)> = seq![(1, 2), whole(residual.encoding())];
            lemma_whole(residual.encoding());
            assert(fits(fields));
            lemma_first(fields);
            lemma_next(fields, 1, fields[1].0, fields[1].1);
            assert(score.encoding() =~= spelled_to(fields, 2));
            lemma_reads_all(score.encoding(), fields);
        },
        CertifiedScore::ExactDyadicSquaredL2V1 { numerator, denominator_power } => {
            let fields: Seq<(nat, nat)> = seq![
                (2, 2),
                whole(numerator@),
                (denominator_power as nat, 4),
            ];
            lemma_whole(numerator@);
            assert(fits(fields));
            lemma_first(fields);
            lemma_next(fields, 1, fields[1].0, fields[1].1);
            lemma_next(fields, 2, fields[2].0, fields[2].1);
            assert(score.encoding() =~= spelled_to(fields, 3));
            lemma_reads_all(score.encoding(), fields);
        },
        CertifiedScore::FastBinary64SquaredL2V1 { squared_l2, consistency } => {
            let fields: Seq<(nat, nat)> = seq![
                (3, 2),
                (squared_l2@ as nat, 8),
                whole(consistency.encoding()),
            ];
            lemma_whole(consistency.encoding());
            assert(fits(fields));
            lemma_first(fields);
            lemma_next(fields, 1, fields[1].0, fields[1].1);
            lemma_next(fields, 2, fields[2].0, fields[2].1);
            assert(score.encoding() =~= spelled_to(fields, 3));
            lemma_reads_all(score.encoding(), fields);
        },
    }
}

/// A certificate is its version, both identifiers with their lengths, its time,
/// the digests of the challenge, the problem, the manifest and the proof, its
/// protocol, its score and the validator's build with its length.
pub proof fn certificate_fields(certified: CertificateModel)
    requires
        certificate_laws::sized_certificate(certified),
        certificate::certificate_error(certified) is None,
    ensures
        reads(
            certificate::certificate_encoding(certified),
            seq![
                (3, 2),
                length_of(utf8(certified.issuer)),
                whole(utf8(certified.issuer)),
                length_of(utf8(certified.key_id)),
                whole(utf8(certified.key_id)),
                (image(certified.issued_at), 8),
                whole(certified.challenge_digest),
                whole(certified.problem_digest),
                whole(certified.manifest_digest),
                whole(certified.proof_digest),
                (certified.protocol.id() as nat, 2),
                whole(certified.score.encoding()),
                length_of(utf8(certified.validator_build)),
                whole(utf8(certified.validator_build)),
            ],
        ),
{
    let fields: Seq<(nat, nat)> = seq![
        (3, 2),
        length_of(utf8(certified.issuer)),
        whole(utf8(certified.issuer)),
        length_of(utf8(certified.key_id)),
        whole(utf8(certified.key_id)),
        (image(certified.issued_at), 8),
        whole(certified.challenge_digest),
        whole(certified.problem_digest),
        whole(certified.manifest_digest),
        whole(certified.proof_digest),
        (certified.protocol.id() as nat, 2),
        whole(certified.score.encoding()),
        length_of(utf8(certified.validator_build)),
        whole(utf8(certified.validator_build)),
    ];
    bytes::lemma_byte_powers();
    lemma_whole(utf8(certified.issuer));
    lemma_whole(utf8(certified.key_id));
    lemma_whole(utf8(certified.validator_build));
    lemma_whole(certified.challenge_digest);
    lemma_whole(certified.problem_digest);
    lemma_whole(certified.manifest_digest);
    lemma_whole(certified.proof_digest);
    lemma_whole(certified.score.encoding());
    assert(fits(fields));
    lemma_first(fields);
    lemma_next_framed(fields, 1, utf8(certified.issuer));
    lemma_next_framed(fields, 3, utf8(certified.key_id));
    lemma_next(fields, 5, image(certified.issued_at), 8);
    lemma_next(fields, 6, fields[6].0, 32);
    lemma_next(fields, 7, fields[7].0, 32);
    lemma_next(fields, 8, fields[8].0, 32);
    lemma_next(fields, 9, fields[9].0, 32);
    lemma_next(fields, 10, certified.protocol.id() as nat, 2);
    lemma_next(fields, 11, fields[11].0, fields[11].1);
    lemma_next_framed(fields, 12, utf8(certified.validator_build));
    lemma_reads_all(certificate::certificate_encoding(certified), fields);
}

/// What a digest under a domain is taken of: the domain and the payload, each
/// with its length.
#[verifier::opaque]
pub open spec fn digest_of(domain: Seq<char>, payload: Seq<u8>, digest: Seq<u8>) -> bool {
    exists|input: Seq<u8>|
        {
            &&& digest == #[trigger] hashing::blake3_digest(input)
            &&& reads(
                input,
                seq![length_of(utf8(domain)), whole(utf8(domain)), length_of(payload), whole(payload)],
            )
        }
}

proof fn lemma_digest_of(domain: Seq<char>, payload: Seq<u8>)
    requires
        utf8(domain).len() <= u64::MAX,
        payload.len() <= u64::MAX,
    ensures
        digest_of(domain, payload, canonical::domain_digest(utf8(domain), payload)),
{
    reveal(digest_of);
    let input = canonical::framed(utf8(domain)) + canonical::framed(payload);
    let fields: Seq<(nat, nat)> = seq![
        length_of(utf8(domain)),
        whole(utf8(domain)),
        length_of(payload),
        whole(payload),
    ];
    bytes::lemma_byte_powers();
    lemma_whole(utf8(domain));
    lemma_whole(payload);
    assert(fits(fields));
    lemma_first(fields);
    lemma_next(fields, 1, fields[1].0, fields[1].1);
    lemma_next(fields, 2, fields[2].0, fields[2].1);
    lemma_next(fields, 3, fields[3].0, fields[3].1);
    assert(input =~= spelled_to(fields, 4));
    lemma_reads_all(input, fields);
    assert(canonical::domain_digest(utf8(domain), payload) == hashing::blake3_digest(input));
}

proof fn lemma_short(domain: Seq<char>)
    requires
        vstd::utf8::is_ascii_chars(domain),
        domain.len() <= 64,
    ensures
        utf8(domain).len() <= u64::MAX,
{
    vstd::utf8::is_ascii_chars_encode_utf8(domain);
}

proof fn lemma_problem_template_v1_domain()
    ensures
        utf8("sparse-solve/problem-template/v1"@).len() <= u64::MAX,
{
    reveal_strlit("sparse-solve/problem-template/v1");
    lemma_short("sparse-solve/problem-template/v1"@);
}

proof fn lemma_problem_v1_domain()
    ensures
        utf8("sparse-solve/problem/v1"@).len() <= u64::MAX,
{
    reveal_strlit("sparse-solve/problem/v1");
    lemma_short("sparse-solve/problem/v1"@);
}

proof fn lemma_challenge_context_v1_domain()
    ensures
        utf8("sparse-solve/challenge-context/v1"@).len() <= u64::MAX,
{
    reveal_strlit("sparse-solve/challenge-context/v1");
    lemma_short("sparse-solve/challenge-context/v1"@);
}

proof fn lemma_challenge_v1_domain()
    ensures
        utf8("sparse-solve/challenge/v1"@).len() <= u64::MAX,
{
    reveal_strlit("sparse-solve/challenge/v1");
    lemma_short("sparse-solve/challenge/v1"@);
}

proof fn lemma_validation_manifest_v1_domain()
    ensures
        utf8("sparse-solve/validation-manifest/v1"@).len() <= u64::MAX,
{
    reveal_strlit("sparse-solve/validation-manifest/v1");
    lemma_short("sparse-solve/validation-manifest/v1"@);
}

proof fn lemma_proof_artifact_v1_domain()
    ensures
        utf8("sparse-solve/proof-artifact/v1"@).len() <= u64::MAX,
{
    reveal_strlit("sparse-solve/proof-artifact/v1");
    lemma_short("sparse-solve/proof-artifact/v1"@);
}

proof fn lemma_public_statement_v1_domain()
    ensures
        utf8("sparse-solve/public-statement/v1"@).len() <= u64::MAX,
{
    reveal_strlit("sparse-solve/public-statement/v1");
    lemma_short("sparse-solve/public-statement/v1"@);
}

proof fn lemma_certificate_v3_domain()
    ensures
        utf8("sparse-solve/certificate/v3"@).len() <= u64::MAX,
{
    reveal_strlit("sparse-solve/certificate/v3");
    lemma_short("sparse-solve/certificate/v3"@);
}

proof fn lemma_challenge_signature_ed25519_v1_domain()
    ensures
        utf8("sparse-solve/challenge-signature/ed25519/v1"@).len() <= u64::MAX,
{
    reveal_strlit("sparse-solve/challenge-signature/ed25519/v1");
    lemma_short("sparse-solve/challenge-signature/ed25519/v1"@);
}

proof fn lemma_certificate_signature_ed25519_v3_domain()
    ensures
        utf8("sparse-solve/certificate-signature/ed25519/v3"@).len() <= u64::MAX,
{
    reveal_strlit("sparse-solve/certificate-signature/ed25519/v3");
    lemma_short("sparse-solve/certificate-signature/ed25519/v3"@);
}

/// Every digest is taken under the domain of its kind.
pub proof fn digests_name_their_domain(
    template: TemplateModel,
    finalized: ProblemModel,
    context: Seq<u8>,
    challenge: SignedChallengeModel,
    manifest: ValidationManifest,
    encoded: Seq<u8>,
)
    requires
        problem::template_encoding(template).len() <= u64::MAX,
        problem::problem_encoding(finalized).len() <= u64::MAX,
        context.len() <= u64::MAX,
        protocol::signed_challenge_bytes(challenge).len() <= u64::MAX,
        encoded.len() <= u64::MAX,
    ensures
        digest_of(
            "sparse-solve/problem-template/v1"@,
            problem::template_encoding(template),
            problem::template_digest(template),
        ),
        digest_of(
            "sparse-solve/problem/v1"@,
            problem::problem_encoding(finalized),
            problem::problem_digest(finalized),
        ),
        digest_of(
            "sparse-solve/challenge-context/v1"@,
            context,
            randomness::context_digest_bytes(context),
        ),
        digest_of(
            "sparse-solve/challenge/v1"@,
            protocol::signed_challenge_bytes(challenge),
            protocol::challenge_digest(challenge),
        ),
        digest_of(
            "sparse-solve/validation-manifest/v1"@,
            certificate::manifest_encoding(manifest),
            certificate::manifest_digest(manifest),
        ),
        digest_of(
            "sparse-solve/proof-artifact/v1"@,
            encoded,
            artifact::artifact_digest(encoded),
        ),
{
    lemma_problem_template_v1_domain();
    lemma_digest_of(
        "sparse-solve/problem-template/v1"@,
        problem::template_encoding(template),
    );
    lemma_problem_v1_domain();
    lemma_digest_of("sparse-solve/problem/v1"@, problem::problem_encoding(finalized));
    lemma_challenge_context_v1_domain();
    lemma_digest_of("sparse-solve/challenge-context/v1"@, context);
    lemma_challenge_v1_domain();
    lemma_digest_of(
        "sparse-solve/challenge/v1"@,
        protocol::signed_challenge_bytes(challenge),
    );
    bytes::lemma_be_bytes_len(1, 2);
    bytes::lemma_be_bytes_len(manifest.protocol.id() as nat, 2);
    bytes::lemma_be_bytes_len(manifest.max_solution_elements as nat, 8);
    bytes::lemma_be_bytes_len(manifest.max_public_matrix_terms as nat, 8);
    bytes::lemma_be_bytes_len(manifest.max_public_rhs_terms as nat, 8);
    lemma_validation_manifest_v1_domain();
    lemma_digest_of(
        "sparse-solve/validation-manifest/v1"@,
        certificate::manifest_encoding(manifest),
    );
    lemma_proof_artifact_v1_domain();
    lemma_digest_of("sparse-solve/proof-artifact/v1"@, encoded);
}

/// The digest of a certificate is taken of the certificate and its signature.
pub proof fn certificate_digests_name_their_parts(certified: SignedCertificateModel)
    requires
        (certificate::certificate_encoding(certified.payload) + certified.signature).len()
            <= u64::MAX,
    ensures
        digest_of(
            "sparse-solve/certificate/v3"@,
            certificate::certificate_encoding(certified.payload) + certified.signature,
            certificate::certificate_digest(certified),
        ),
{
    lemma_certificate_v3_domain();
    lemma_digest_of(
        "sparse-solve/certificate/v3"@,
        certificate::certificate_encoding(certified.payload) + certified.signature,
    );
}

proof fn lemma_statement_payload(id: nat, of_problem: Seq<u8>, of_manifest: Seq<u8>)
    requires
        id < 65536,
    ensures
        reads(
            bytes::be_bytes(id, 2) + of_problem + of_manifest,
            seq![(id, 2), whole(of_problem), whole(of_manifest)],
        ),
        bytes::be_bytes(id, 2).len() == 2,
{
    let fields: Seq<(nat, nat)> = seq![(id, 2), whole(of_problem), whole(of_manifest)];
    bytes::lemma_byte_powers();
    bytes::lemma_be_bytes_len(id, 2);
    lemma_whole(of_problem);
    lemma_whole(of_manifest);
    assert(fits(fields));
    lemma_first(fields);
    lemma_next(fields, 1, fields[1].0, fields[1].1);
    lemma_next(fields, 2, fields[2].0, fields[2].1);
    lemma_reads_all(bytes::be_bytes(id, 2) + of_problem + of_manifest, fields);
}

/// The digest of a statement is taken of its protocol, the digest of its problem
/// and the digest of its manifest.
pub proof fn statement_digests_name_their_parts(stated: StatementModel) -> (payload: Seq<u8>)
    requires
        problem::problem_digest(stated.problem).len() == 32,
        certificate::manifest_digest(stated.manifest).len() == 32,
    ensures
        digest_of(
            "sparse-solve/public-statement/v1"@,
            payload,
            statement::statement_digest(stated),
        ),
        reads(
            payload,
            seq![
                (stated.manifest.protocol.id() as nat, 2),
                whole(problem::problem_digest(stated.problem)),
                whole(certificate::manifest_digest(stated.manifest)),
            ],
        ),
{
    let id = stated.manifest.protocol.id() as nat;
    let of_problem = problem::problem_digest(stated.problem);
    let of_manifest = certificate::manifest_digest(stated.manifest);
    let payload = bytes::be_bytes(id, 2) + of_problem + of_manifest;
    lemma_public_statement_v1_domain();
    lemma_statement_payload(id, of_problem, of_manifest);
    lemma_digest_of("sparse-solve/public-statement/v1"@, payload);
    payload
}

/// Challenges and certificates are signed under the domain of their kind, with
/// the domain's and the payload's length.
pub proof fn signed_messages_name_their_domain(
    challenge: ChallengeModel,
    certified: CertificateModel,
)
    requires
        protocol::challenge_encoding(challenge).len() <= u64::MAX,
        certificate::certificate_encoding(certified).len() <= u64::MAX,
    ensures
        ({
            let domain = utf8("sparse-solve/challenge-signature/ed25519/v1"@);
            let payload = protocol::challenge_encoding(challenge);
            reads(
                protocol::challenge_message(challenge),
                seq![length_of(domain), whole(domain), length_of(payload), whole(payload)],
            )
        }),
        ({
            let domain = utf8("sparse-solve/certificate-signature/ed25519/v3"@);
            let payload = certificate::certificate_encoding(certified);
            reads(
                certificate::certificate_message(certified),
                seq![length_of(domain), whole(domain), length_of(payload), whole(payload)],
            )
        }),
{
    lemma_challenge_signature_ed25519_v1_domain();
    lemma_message(
        "sparse-solve/challenge-signature/ed25519/v1"@,
        protocol::challenge_encoding(challenge),
    );
    lemma_certificate_signature_ed25519_v3_domain();
    lemma_message(
        "sparse-solve/certificate-signature/ed25519/v3"@,
        certificate::certificate_encoding(certified),
    );
}

proof fn lemma_message(domain: Seq<char>, payload: Seq<u8>)
    requires
        utf8(domain).len() <= u64::MAX,
        payload.len() <= u64::MAX,
    ensures
        reads(
            protocol::signed_message(domain, payload),
            seq![
                length_of(utf8(domain)),
                whole(utf8(domain)),
                length_of(payload),
                whole(payload),
            ],
        ),
{
    let fields: Seq<(nat, nat)> = seq![
        length_of(utf8(domain)),
        whole(utf8(domain)),
        length_of(payload),
        whole(payload),
    ];
    bytes::lemma_byte_powers();
    lemma_whole(utf8(domain));
    lemma_whole(payload);
    assert(fits(fields));
    lemma_first(fields);
    lemma_next(fields, 1, fields[1].0, fields[1].1);
    lemma_next(fields, 2, fields[2].0, fields[2].1);
    lemma_next(fields, 3, fields[3].0, fields[3].1);
    assert(protocol::signed_message(domain, payload) =~= spelled_to(fields, 4));
    lemma_reads_all(protocol::signed_message(domain, payload), fields);
}

/// Whether derivation input is a prefix of 32 bytes, the length of a content
/// with its lowest byte first, and the content.
pub open spec fn delimits(input: Seq<u8>, prefix: Seq<u8>, content: Seq<u8>) -> bool {
    &&& input.len() == 40 + content.len()
    &&& input.take(32) == prefix
    &&& bytes::le_value(input.subrange(32, 40)) == content.len()
    &&& input.skip(40) == content
}

/// Seeds are the first 32 bytes that are derived, under the context of their
/// kind, from a prefix and the whole of a context or a label: instance seeds from
/// a template's digest and a challenge context, subseeds from a seed and a label.
pub proof fn seeds_are_derived_from_delimited_input(prefix: Seq<u8>, content: Seq<u8>) -> (input:
    Seq<u8>)
    requires
        prefix.len() == 32,
        content.len() <= u64::MAX,
    ensures
        delimits(input, prefix, content),
        randomness::instance_seed_bytes(prefix, content) == Seq::new(
            32,
            |i: int|
                hashing::blake3_derived_byte(
                    "sparse-solve/problem-instance-seed/v1"@,
                    input,
                    i as nat,
                ),
        ),
        randomness::subseed_bytes(prefix, content) == Seq::new(
            32,
            |i: int|
                hashing::blake3_derived_byte(
                    "sparse-solve/problem-subseed/v1"@,
                    input,
                    i as nat,
                ),
        ),
{
    let length = bytes::le_bytes(content.len(), 8);
    let input = prefix + length + content;
    bytes::lemma_byte_powers();
    opening::lemma_le_round_trip(content.len(), 8);
    assert(input.take(32) =~= prefix);
    assert(input.subrange(32, 40) =~= length);
    assert(input.skip(40) =~= content);
    assert(randomness::instance_seed_bytes(prefix, content) =~= Seq::new(
        32,
        |i: int|
            hashing::blake3_derived_byte(
                "sparse-solve/problem-instance-seed/v1"@,
                input,
                i as nat,
            ),
    ));
    assert(randomness::subseed_bytes(prefix, content) =~= Seq::new(
        32,
        |i: int|
            hashing::blake3_derived_byte("sparse-solve/problem-subseed/v1"@, input, i as nat),
    ));
    input
}

/// An encoded proof is its magic number, its version and the lengths of its two
/// streams, lowest bytes first, and then the argument stream and the hints.
pub proof fn proof_fields(streams: StreamsModel)
    requires
        streams.narg_string.len() <= u64::MAX,
        streams.hints.len() <= u64::MAX,
    ensures
        ({
            let encoded = opening::certificate_bytes(streams);
            let split = 26 + streams.narg_string.len();
            &&& encoded.len() == split + streams.hints.len()
            &&& encoded.len() == opening::certificate_length(streams)
            &&& bytes::le_value(encoded.subrange(0, 8)) == 0x3130_5343_504d_5353
            &&& bytes::le_value(encoded.subrange(8, 10)) == 1
            &&& bytes::le_value(encoded.subrange(10, 18)) == streams.narg_string.len()
            &&& bytes::le_value(encoded.subrange(18, 26)) == streams.hints.len()
            &&& encoded.subrange(26, split as int) == streams.narg_string
            &&& encoded.skip(split as int) == streams.hints
        }),
{
    let encoded = opening::certificate_bytes(streams);
    let split = (26 + streams.narg_string.len()) as int;
    bytes::lemma_byte_powers();
    opening::lemma_le_round_trip(0x3130_5343_504d_5353, 8);
    opening::lemma_le_round_trip(1, 2);
    opening::lemma_le_round_trip(streams.narg_string.len(), 8);
    opening::lemma_le_round_trip(streams.hints.len(), 8);
    assert(encoded.subrange(0, 8) =~= bytes::le_bytes(0x3130_5343_504d_5353, 8));
    assert(encoded.subrange(8, 10) =~= bytes::le_bytes(1, 2));
    assert(encoded.subrange(10, 18) =~= bytes::le_bytes(streams.narg_string.len(), 8));
    assert(encoded.subrange(18, 26) =~= bytes::le_bytes(streams.hints.len(), 8));
    assert(encoded.subrange(26, split) =~= streams.narg_string);
    assert(encoded.skip(split) =~= streams.hints);
}

proof fn lemma_elements(elements: Seq<nat>, from: nat, index: int)
    requires
        from <= index < elements.len(),
        elements[index] < bytes::byte_power(24),
    ensures
        pcs::elements_from(elements, from).len() == 24 * (elements.len() - from),
        bytes::le_value(
            pcs::elements_from(elements, from).subrange(
                24 * (index - from),
                24 * (index - from) + 24,
            ),
        ) == elements[index],
    decreases elements.len() - from,
{
    let encoded = pcs::elements_from(elements, from);
    let rest = pcs::elements_from(elements, from + 1);
    let first = bytes::le_bytes(elements[from as int], 24);
    bytes::lemma_be_bytes_len(elements[from as int], 24);
    assert(encoded == first + rest);
    if from == index {
        opening::lemma_le_round_trip(elements[index], 24);
        assert(encoded.subrange(0, 24) =~= first);
        lemma_elements_len(elements, from + 1);
    } else {
        lemma_elements(elements, from + 1, index);
        assert(encoded.subrange(24 * (index - from), 24 * (index - from) + 24) =~= rest.subrange(
            24 * (index - from - 1),
            24 * (index - from - 1) + 24,
        ));
    }
}

proof fn lemma_elements_len(elements: Seq<nat>, from: nat)
    requires
        from <= elements.len(),
    ensures
        pcs::elements_from(elements, from).len() == 24 * (elements.len() - from),
    decreases elements.len() - from,
{
    if from < elements.len() {
        bytes::lemma_be_bytes_len(elements[from as int], 24);
        lemma_elements_len(elements, from + 1);
    }
}

/// A list of field elements is its length and each element in 24 bytes, lowest
/// bytes first.
pub proof fn list_fields(elements: Seq<nat>, index: int)
    requires
        elements.len() <= u64::MAX,
        0 <= index < elements.len(),
        elements[index] < bytes::byte_power(24),
    ensures
        ({
            let encoded = pcs::list_bytes(elements);
            &&& encoded.len() == 8 + 24 * elements.len()
            &&& bytes::le_value(encoded.take(8)) == elements.len()
            &&& bytes::le_value(encoded.subrange(8 + 24 * index, 32 + 24 * index))
                == elements[index]
        }),
{
    let encoded = pcs::list_bytes(elements);
    bytes::lemma_byte_powers();
    opening::lemma_le_round_trip(elements.len(), 8);
    lemma_elements(elements, 0, index);
    assert(encoded.take(8) =~= bytes::le_bytes(elements.len(), 8));
    assert(encoded.subrange(8 + 24 * index, 32 + 24 * index) =~= pcs::elements_from(
        elements,
        0,
    ).subrange(24 * index, 24 * index + 24));
}

/// The opening statement is its tag, the length of the vectors, their number and
/// the number of points, lowest bytes first, then every point as a list, and the
/// values as a list at the end.
pub proof fn opening_fields(vector_len: usize, batch_size: usize, claims: ClaimsModel)
    requires
        claims.points.len() <= u64::MAX,
    ensures
        ({
            let encoded = pcs::opening_bytes(vector_len, batch_size, claims);
            let tag = utf8("sparse-solution/mle-pcs/openings/v1\0"@);
            let start = tag.len() as int;
            let values = pcs::list_bytes(claims.evaluations);
            &&& pcs::opening_digest(vector_len, batch_size, claims) == hashing::blake3_digest(
                encoded,
            )
            &&& encoded.take(start) == tag
            &&& bytes::le_value(encoded.subrange(start, start + 8)) == vector_len
            &&& bytes::le_value(encoded.subrange(start + 8, start + 16)) == batch_size
            &&& bytes::le_value(encoded.subrange(start + 16, start + 24)) == claims.points.len()
            &&& encoded.subrange(start + 24, encoded.len() - values.len()) == pcs::points_from(
                claims.points,
                0,
            )
            &&& encoded.skip(encoded.len() - values.len()) == values
        }),
{
    let encoded = pcs::opening_bytes(vector_len, batch_size, claims);
    let tag = utf8("sparse-solution/mle-pcs/openings/v1\0"@);
    let start = tag.len() as int;
    let values = pcs::list_bytes(claims.evaluations);
    bytes::lemma_byte_powers();
    opening::lemma_le_round_trip(vector_len as nat, 8);
    opening::lemma_le_round_trip(batch_size as nat, 8);
    opening::lemma_le_round_trip(claims.points.len(), 8);
    assert(encoded.take(start) =~= tag);
    assert(encoded.subrange(start, start + 8) =~= bytes::le_bytes(vector_len as nat, 8));
    assert(encoded.subrange(start + 8, start + 16) =~= bytes::le_bytes(batch_size as nat, 8));
    assert(encoded.subrange(start + 16, start + 24) =~= bytes::le_bytes(claims.points.len(), 8));
    assert(encoded.subrange(start + 24, encoded.len() - values.len()) =~= pcs::points_from(
        claims.points,
        0,
    ));
    assert(encoded.skip(encoded.len() - values.len()) =~= values);
}

/// The encoded points are the points as lists, one after another.
pub proof fn points_follow_one_another(points: Seq<Seq<nat>>, position: nat)
    requires
        position < points.len(),
    ensures
        ({
            let encoded = pcs::points_from(points, position);
            let first = pcs::list_bytes(points[position as int]);
            &&& encoded.take(first.len() as int) == first
            &&& encoded.skip(first.len() as int) == pcs::points_from(points, position + 1)
        }),
        pcs::points_from(points, points.len()) == Seq::<u8>::empty(),
{
    let encoded = pcs::points_from(points, position);
    let first = pcs::list_bytes(points[position as int]);
    assert(encoded.take(first.len() as int) =~= first);
    assert(encoded.skip(first.len() as int) =~= pcs::points_from(points, position + 1));
}

/// A written solution holds every decimal between quotes, each behind the one
/// before it.
pub proof fn documents_hold_every_decimal(
    decimals: Seq<Vec<u8>>,
    count: nat,
    index: int,
) -> (place: int)
    requires
        count <= decimals.len(),
        0 <= index < count,
    ensures
        ({
            let written = solution::entries_bytes(decimals, count);
            let end = place + decimals[index]@.len();
            let before = solution::entries_bytes(decimals, index as nat).len();
            &&& before + 6 <= place
            &&& end + 1 == solution::entries_bytes(decimals, (index + 1) as nat).len()
            &&& end < written.len()
            &&& written.subrange(place, end) == decimals[index]@
            &&& written[place - 1] == 34
            &&& written[end] == 34
        }),
    decreases count,
{
    let fewer = (count - 1) as nat;
    let before = solution::entries_bytes(decimals, fewer);
    let written = solution::entries_bytes(decimals, count);
    reveal_strlit("\n");
    reveal_strlit(",\n");
    reveal_strlit("    \"");
    reveal_strlit("\"");
    vstd::utf8::is_ascii_chars_encode_utf8("\n"@);
    vstd::utf8::is_ascii_chars_encode_utf8(",\n"@);
    vstd::utf8::is_ascii_chars_encode_utf8("    \""@);
    vstd::utf8::is_ascii_chars_encode_utf8("\""@);
    let separator = utf8(
        if fewer == 0 {
            "\n"@
        } else {
            ",\n"@
        },
    );
    let decimal = decimals[fewer as int]@;
    let entry = solution::entry_bytes(fewer as int, decimal);
    assert(entry == separator + utf8("    \""@) + decimal + utf8("\""@));
    assert("    \""@[4] == '"');
    assert("\""@[0] == '"');
    if index == fewer {
        let place: int = before.len() as int + separator.len() + 5;
        assert(written.subrange(place, place + decimal.len()) =~= decimal);
        assert(written[place - 1] == utf8("    \""@)[4]);
        assert(written[place + decimal.len()] == utf8("\""@)[0]);
        place
    } else {
        let place = documents_hold_every_decimal(decimals, fewer, index);
        let end = place + decimals[index]@.len();
        assert(written.subrange(place, end) =~= before.subrange(place, end));
        place
    }
}

} // verus!
