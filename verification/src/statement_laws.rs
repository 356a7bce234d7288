//! Which statements, manifests, challenges and scores are admitted, and what is
//! handed on of them.

use vstd::arithmetic::power2::*;
use vstd::prelude::*;

use crate::artifact;
use crate::artifact::{ArtifactModel, ArtifactSummary};
use crate::binary64;
use crate::binary64::Binary64;
use crate::certificate;
use crate::certificate::{
    CertificateModel, CertifiedScore, DefectMetrics, FastConsistencyMetrics, ResidualMetrics,
    ValidationManifest,
};
use crate::generator;
use crate::generator::GeneratedModel;
use crate::problem;
use crate::problem::{ProblemError, ProblemModel};
use crate::protocol;
use crate::protocol::{ChallengeModel, ProofProtocol, SignedChallengeModel};
use crate::randomness::RandomnessModel;
use crate::statement;
use crate::statement::StatementModel;

verus! {

/// Whether a problem's randomness and its challenge belong together: a literal
/// seed comes without a challenge; a derived one comes with the challenge that
/// names the problem's template and whose canonical payload is the context that
/// the seed was derived from.
pub open spec fn explained(finalized: ProblemModel, challenge: Option<SignedChallengeModel>) -> bool {
    &&& finalized.randomness is Literal <==> challenge is None
    &&& challenge matches Some(signed) ==> {
        &&& signed.payload.template_digest == problem::template_digest(finalized.template())
        &&& finalized.randomness matches RandomnessModel::ChallengeDerived { context, .. }
        &&& context == protocol::challenge_encoding(signed.payload)
    }
}

/// A public statement is admitted exactly where its problem, manifest and
/// challenge are valid, the challenge explains the problem's randomness, and the
/// compiled problem stays within the manifest. What is admitted is what was
/// given, with the problem compiled.
pub proof fn statements_are_admitted_as_given(
    finalized: ProblemModel,
    manifest: ValidationManifest,
    challenge: Option<SignedChallengeModel>,
)
    ensures
        statement::statement_outcome(finalized, manifest, challenge) is Ok <==> {
            &&& finalized.error() is None
            &&& certificate::manifest_error(manifest) is None
            &&& challenge matches Some(signed) ==> protocol::challenge_error(signed.payload) is None
            &&& explained(finalized, challenge)
            &&& finalized.matrix.dimension() <= manifest.max_solution_elements
            &&& generator::compiled_problem(finalized) matches Ok(generated)
            &&& statement::matrix_terms(generated) <= manifest.max_public_matrix_terms
            &&& statement::rhs_terms(generated) <= manifest.max_public_rhs_terms
        },
        statement::statement_outcome(finalized, manifest, challenge) matches Ok(stated) ==> {
            &&& stated.problem == finalized
            &&& stated.manifest == manifest
            &&& stated.challenge == challenge
            &&& generator::compiled_problem(finalized) == Ok::<GeneratedModel, ProblemError>(
                stated.generated,
            )
        },
{
}

/// What a verifier gets of a statement: the protocol of the manifest, the
/// digests of the problem, of the manifest and of the statement, the dimension
/// and the compiled public data.
pub proof fn verifiers_get_the_statement(stated: StatementModel)
    ensures
        ({
            let restricted = statement::restricted(stated);
            &&& restricted.protocol == stated.manifest.protocol
            &&& restricted.problem_digest == problem::problem_digest(stated.problem)
            &&& restricted.manifest_digest == certificate::manifest_digest(stated.manifest)
            &&& restricted.transcript_digest == statement::statement_digest(stated)
            &&& restricted.dimension == stated.generated.matrix.dimension()
            &&& restricted.public == stated.generated
        }),
{
}

/// What a summary says of an artifact: the protocol of its manifest, the digests
/// of its problem, of its manifest and of all its bytes, how many bytes it and
/// its payload have, and whether it carries a challenge.
pub proof fn summaries_describe_the_artifact(summary: ArtifactSummary, parsed: ArtifactModel)
    requires
        artifact::summarizes(summary, parsed),
    ensures
        summary.protocol == parsed.statement.manifest.protocol,
        summary.problem_digest@ == problem::problem_digest(parsed.statement.problem),
        summary.validation_manifest_digest@ == certificate::manifest_digest(
            parsed.statement.manifest,
        ),
        summary.proof_digest@ == artifact::artifact_digest(parsed.encoded),
        summary.artifact_bytes == parsed.encoded.len(),
        summary.payload_bytes == parsed.payload.len(),
        summary.has_signed_problem_challenge <==> parsed.statement.challenge is Some,
{
}

/// Which manifests are valid.
pub proof fn manifest_validity(manifest: ValidationManifest)
    ensures
        certificate::manifest_error(manifest) is None <==> {
            &&& 0 < manifest.max_solution_elements <= 0x4000_0000
            &&& 0 < manifest.max_public_matrix_terms <= 0x10_0000
            &&& 0 < manifest.max_public_rhs_terms <= 0x10_0000
        },
{
}

/// Text whose encoding has no byte above 127 is ASCII.
proof fn lemma_ascii_bytes(value: Seq<char>)
    requires
        forall|i: int|
            0 <= i < vstd::utf8::encode_utf8(value).len() ==> #[trigger] vstd::utf8::encode_utf8(
                value,
            )[i] <= 127,
    ensures
        vstd::utf8::is_ascii_chars(value),
{
    let encoded = vstd::utf8::encode_utf8(value);
    let spelled = Seq::new(encoded.len(), |i: int| encoded[i] as char);
    assert forall|i: int| 0 <= i < spelled.len() implies '\0' <= #[trigger] spelled[i]
        <= '\u{7f}' by {
        assert(encoded[i] <= 127);
    }
    vstd::utf8::is_ascii_chars_encode_utf8(spelled);
    assert(vstd::utf8::encode_utf8(spelled) =~= encoded) by {
        assert forall|i: int| 0 <= i < encoded.len() implies vstd::utf8::encode_utf8(spelled)[i]
            == #[trigger] encoded[i] by {
            assert(spelled[i] as u8 == encoded[i]);
        }
    }
    vstd::utf8::encode_utf8_decode_utf8(value);
    vstd::utf8::encode_utf8_decode_utf8(spelled);
}

/// Which identifiers are valid: one to 256 visible ASCII characters.
pub proof fn identifier_validity(value: Seq<char>)
    ensures
        protocol::valid_identifier(value) <==> {
            &&& 1 <= value.len() <= 256
            &&& forall|i: int| 0 <= i < value.len() ==> '!' <= #[trigger] value[i] <= '~'
        },
{
    if protocol::valid_identifier(value) {
        lemma_ascii_bytes(value);
    }
    if vstd::utf8::is_ascii_chars(value) {
        lemma_ascii_identifier(value);
    } else {
        let foreign = choose|i: int|
            0 <= i < value.len() && !('\0' <= #[trigger] value[i] <= '\u{7f}');
        assert(!('!' <= value[foreign] <= '~'));
    }
}

proof fn lemma_ascii_identifier(value: Seq<char>)
    requires
        vstd::utf8::is_ascii_chars(value),
    ensures
        protocol::valid_identifier(value) <==> {
            &&& 1 <= value.len() <= 256
            &&& forall|i: int| 0 <= i < value.len() ==> '!' <= #[trigger] value[i] <= '~'
        },
{
    vstd::utf8::is_ascii_chars_encode_utf8(value);
    let encoded = vstd::utf8::encode_utf8(value);
    assert forall|i: int| 0 <= i < value.len() implies (33 <= #[trigger] encoded[i] <= 126 <==> '!'
        <= value[i] <= '~') by {
        assert(value[i] as u8 == encoded[i]);
        assert('\0' <= value[i] <= '\u{7f}');
    }
    if protocol::valid_identifier(value) {
        assert forall|i: int| 0 <= i < value.len() implies '!' <= #[trigger] value[i] <= '~' by {
            assert(33 <= encoded[i] <= 126);
        }
    }
    if 1 <= value.len() <= 256 && (forall|i: int|
        0 <= i < value.len() ==> '!' <= #[trigger] value[i] <= '~') {
        assert forall|i: int| 0 <= i < encoded.len() implies 33 <= #[trigger] encoded[i]
            <= 126 by {
            assert('!' <= value[i] <= '~');
        }
    }
}

/// Which challenge payloads are valid.
pub proof fn challenge_validity(challenge: ChallengeModel)
    ensures
        protocol::challenge_error(challenge) is None <==> {
            &&& protocol::valid_identifier(challenge.issuer)
            &&& protocol::valid_identifier(challenge.key_id)
            &&& 0 <= challenge.issued_at < challenge.expires_at
        },
{
}

/// Whether a binary64 is a finite number that is not negative.
pub open spec fn measured(value: Binary64) -> bool {
    binary64::finite(value@) && value@ < 0x8000_0000_0000_0000
}

/// Which residual metrics are valid: all four are measured.
pub proof fn residual_validity(metrics: ResidualMetrics)
    ensures
        certificate::residual_error(metrics) is None <==> {
            &&& measured(metrics.squared_l2)
            &&& measured(metrics.l2)
            &&& measured(metrics.rms)
            &&& measured(metrics.max_abs)
        },
{
}

/// Which defect metrics are valid: all are measured, the largest normalized one
/// does not exceed one, and no threshold was exceeded.
pub proof fn defect_validity(metrics: DefectMetrics)
    ensures
        certificate::valid_defects(metrics) <==> {
            &&& measured(metrics.maximum_absolute_defect)
            &&& measured(metrics.maximum_normalized_defect)
            &&& measured(metrics.rms_normalized_defect)
            &&& binary64::unit_magnitude(metrics.maximum_normalized_defect@) <= pow2(1074)
            &&& metrics.threshold_exceedances == 0
        },
{
}

/// Which consistency metrics are valid: all four groups are, and from one to 64
/// query trajectories were followed.
pub proof fn consistency_validity(metrics: FastConsistencyMetrics)
    ensures
        certificate::valid_consistency(metrics) <==> {
            &&& certificate::valid_defects(metrics.norm_sumcheck)
            &&& certificate::valid_defects(metrics.matvec_sumcheck)
            &&& certificate::valid_defects(metrics.linear_opening)
            &&& certificate::valid_defects(metrics.unit_circle_folds)
            &&& 1 <= metrics.recursive_query_trajectories <= 64
        },
{
}

/// Which scores belong to a protocol: each protocol has its own kind of score,
/// and that score is valid.
pub proof fn score_validity(score: CertifiedScore, selected: ProofProtocol)
    ensures
        certificate::score_error(score, selected) is None <==> match score {
            CertifiedScore::DirectBinary64ResidualV1 { residual } => {
                &&& selected == ProofProtocol::DirectReferenceV1
                &&& certificate::residual_error(residual) is None
            },
            CertifiedScore::ExactDyadicSquaredL2V1 { denominator_power, .. } => {
                &&& selected == ProofProtocol::WhirField192L2V4
                &&& 1 <= denominator_power <= 512
            },
            CertifiedScore::FastBinary64SquaredL2V1 { squared_l2, consistency } => {
                &&& selected == ProofProtocol::FastBinary64UnitCircleV3
                &&& measured(squared_l2)
                &&& certificate::valid_consistency(consistency)
            },
        },
{
}

/// Which certificates are valid.
pub proof fn certificate_validity(certified: CertificateModel)
    ensures
        certificate::certificate_error(certified) is None <==> {
            &&& protocol::valid_identifier(certified.issuer)
            &&& protocol::valid_identifier(certified.key_id)
            &&& protocol::valid_identifier(certified.validator_build)
            &&& 0 <= certified.issued_at
            &&& certificate::score_error(certified.score, certified.protocol) is None
        },
{
}

} // verus!
