//! Laws of transcripts: the one order in which a complete run asks for its
//! actions, and what such a run has bound.

use vstd::prelude::*;

use crate::binary64::Binary64;
use crate::opening;
use crate::opening::{RoundLayout, SchemeModel, SchemeReadings, StreamsModel};
use crate::pcs;
use crate::pcs::OpeningClaims;
use crate::transcript;
use crate::transcript::{
    ProverActionModel, ProverEvent, ProverMove, ProverStage, VerifierActionModel, VerifierEvent,
    VerifierMove, VerifierStage,
};

verus! {

/// The actions that a proving run asks for while it takes up events.
pub open spec fn proof_actions(
    vector_len: usize,
    batch_size: usize,
    stage: ProverStage,
    events: Seq<ProverEvent>,
) -> Seq<ProverActionModel>
    decreases events.len(),
{
    if events.len() == 0 {
        Seq::empty()
    } else {
        match transcript::proof_step(vector_len, batch_size, stage, events[0]) {
            ProverMove::Next { stage: next, action } => seq![action] + proof_actions(
                vector_len,
                batch_size,
                next,
                events.skip(1),
            ),
            _ => Seq::empty(),
        }
    }
}

/// The last move of a proving run; nothing may follow the end of a run.
pub open spec fn proof_end(
    vector_len: usize,
    batch_size: usize,
    stage: ProverStage,
    events: Seq<ProverEvent>,
) -> ProverMove
    decreases events.len(),
{
    if events.len() == 0 {
        ProverMove::OutOfOrder
    } else {
        let made = transcript::proof_step(vector_len, batch_size, stage, events[0]);
        if events.len() == 1 {
            made
        } else {
            match made {
                ProverMove::Next { stage: next, .. } => proof_end(
                    vector_len,
                    batch_size,
                    next,
                    events.skip(1),
                ),
                _ => ProverMove::OutOfOrder,
            }
        }
    }
}

/// A proving run that completes has bound the session and the statement,
/// committed, run the application's part, sent the digest of the claims, and
/// proved those same claims, in this order and with nothing between. The proof
/// as a whole is then one that is not refused.
pub proof fn completed_proofs_follow_the_order(
    vector_len: usize,
    batch_size: usize,
    vectors: Seq<Seq<nat>>,
    statement_digest: Seq<u8>,
    events: Seq<ProverEvent>,
    claims: OpeningClaims,
    proof_of: SchemeModel,
)
    requires
        vectors.len() == batch_size,
        pcs::lengths_error(vectors, vector_len, vectors.len()) is None,
        proof_end(vector_len, batch_size, ProverStage::Binding, events) == (ProverMove::Finished {
            claims,
            proof_of,
        }),
    ensures
        seq![transcript::first_prover_action(statement_digest)] + proof_actions(
            vector_len,
            batch_size,
            ProverStage::Binding,
            events,
        ) == seq![
            ProverActionModel::BindSession { session: pcs::SESSION_TAG@, statement_digest },
            ProverActionModel::Commit,
            ProverActionModel::RunHook,
            ProverActionModel::SendDigest {
                digest: pcs::opening_digest(vector_len, batch_size, claims@),
            },
            ProverActionModel::Prove,
        ],
        events.len() == 5,
        events[2] == (ProverEvent::HookReturned {
            outcome: Ok((claims, proof_of.computed_security)),
        }),
        opening::proving_error(vector_len, batch_size, vectors, Ok(claims), proof_of) is None,
{
    reveal_with_fuel(proof_actions, 6);
    reveal_with_fuel(proof_end, 6);
    let second = events.skip(1);
    let third = second.skip(1);
    let fourth = third.skip(1);
    let fifth = fourth.skip(1);
    assert(proof_actions(vector_len, batch_size, ProverStage::Binding, events) =~= seq![
        ProverActionModel::Commit,
        ProverActionModel::RunHook,
        ProverActionModel::SendDigest {
            digest: pcs::opening_digest(vector_len, batch_size, claims@),
        },
        ProverActionModel::Prove,
    ]);
    assert(third[0] == events[2]);
}

/// A proof that is not refused as a whole is what a run completes with, once
/// every action gave its part of it.
pub proof fn unrefused_proofs_complete(
    vector_len: usize,
    batch_size: usize,
    vectors: Seq<Seq<nat>>,
    claims: OpeningClaims,
    proof_of: SchemeModel,
    rounds: Vec<RoundLayout>,
    narg_string: Vec<u8>,
    hints: Vec<u8>,
)
    requires
        opening::proving_error(vector_len, batch_size, vectors, Ok(claims), proof_of) is None,
        proof_of.rounds == rounds@,
        proof_of.streams == (StreamsModel { narg_string: narg_string@, hints: hints@ }),
    ensures
        proof_end(
            vector_len,
            batch_size,
            ProverStage::Binding,
            seq![
                ProverEvent::SessionBound { hash_count: proof_of.hashes_before },
                ProverEvent::Committed { layout: proof_of.layout },
                ProverEvent::HookReturned { outcome: Ok((claims, proof_of.computed_security)) },
                ProverEvent::DigestSent,
                ProverEvent::Proved {
                    rounds,
                    narg_string,
                    hints,
                    hash_count: proof_of.hashes_after,
                },
            ],
        ) == (ProverMove::Finished { claims, proof_of }),
{
    reveal_with_fuel(proof_end, 6);
}

/// The actions that a verifying run asks for while it takes up events.
pub open spec fn verification_actions(
    vector_len: usize,
    batch_size: usize,
    certificate: StreamsModel,
    stage: VerifierStage,
    events: Seq<VerifierEvent>,
) -> Seq<VerifierActionModel>
    decreases events.len(),
{
    if events.len() == 0 {
        Seq::empty()
    } else {
        match transcript::verification_step(
            vector_len,
            batch_size,
            certificate,
            stage,
            events[0],
        ) {
            VerifierMove::Next { stage: next, action } => seq![action] + verification_actions(
                vector_len,
                batch_size,
                certificate,
                next,
                events.skip(1),
            ),
            _ => Seq::empty(),
        }
    }
}

/// The last move of a verifying run; nothing may follow the end of a run.
pub open spec fn verification_end(
    vector_len: usize,
    batch_size: usize,
    certificate: StreamsModel,
    stage: VerifierStage,
    events: Seq<VerifierEvent>,
) -> VerifierMove
    decreases events.len(),
{
    if events.len() == 0 {
        VerifierMove::OutOfOrder
    } else {
        let made = transcript::verification_step(
            vector_len,
            batch_size,
            certificate,
            stage,
            events[0],
        );
        if events.len() == 1 {
            made
        } else {
            match made {
                VerifierMove::Next { stage: next, .. } => verification_end(
                    vector_len,
                    batch_size,
                    certificate,
                    next,
                    events.skip(1),
                ),
                _ => VerifierMove::OutOfOrder,
            }
        }
    }
}

/// A verifying run that accepts has bound the session and the statement, read
/// the commitment, replayed the application's part, read the digest of the
/// claims, verified those same claims and the deferred final claim, and found
/// the end of the proof, in this order and with nothing between. The readings
/// as a whole are then ones that are not refused.
pub proof fn completed_verifications_follow_the_order(
    vector_len: usize,
    batch_size: usize,
    certificate: StreamsModel,
    statement_digest: Seq<u8>,
    events: Seq<VerifierEvent>,
    claims: OpeningClaims,
    computed_security: Binary64,
    hashes_before: usize,
    hashes_after: usize,
)
    requires
        verification_end(vector_len, batch_size, certificate, VerifierStage::Binding, events) == (
        VerifierMove::Finished { claims, computed_security, hashes_before, hashes_after }),
    ensures
        seq![transcript::first_verifier_action(statement_digest)] + verification_actions(
            vector_len,
            batch_size,
            certificate,
            VerifierStage::Binding,
            events,
        ) == seq![
            VerifierActionModel::BindSession { session: pcs::SESSION_TAG@, statement_digest },
            VerifierActionModel::ReceiveCommitment,
            VerifierActionModel::RunHook,
            VerifierActionModel::ReceiveDigest,
            VerifierActionModel::VerifyOpenings,
            VerifierActionModel::VerifyFinalClaim,
            VerifierActionModel::RequireEnd,
        ],
        events.len() == 7,
        events[1] == (VerifierEvent::CommitmentReceived { received: true }),
        events[2] == (VerifierEvent::HookReturned { outcome: Ok((claims, computed_security)) }),
        events[3] matches VerifierEvent::DigestReceived { digest: Some(received) }
            && received@ == pcs::opening_digest(vector_len, batch_size, claims@)
            && opening::verification_error(
            vector_len,
            batch_size,
            certificate,
            SchemeReadings {
                commitment_received: true,
                claims: Ok(claims),
                computed_security,
                received_digest: Some(received),
                accepted: true,
                hashes_before,
                hashes_after,
            },
        ) is None,
        events[4] == (VerifierEvent::OpeningsVerified { accepted: true }),
        events[5] == (VerifierEvent::FinalClaimVerified { accepted: true }),
        events[6] == (VerifierEvent::EndChecked { reached: true, hash_count: hashes_after }),
{
    reveal_with_fuel(verification_actions, 8);
    reveal_with_fuel(verification_end, 8);
    let second = events.skip(1);
    let third = second.skip(1);
    let fourth = third.skip(1);
    let fifth = fourth.skip(1);
    let sixth = fifth.skip(1);
    let seventh = sixth.skip(1);
    assert(second[0] == events[1]);
    assert(third[0] == events[2]);
    assert(fourth[0] == events[3]);
    assert(fifth[0] == events[4]);
    assert(sixth[0] == events[5]);
    assert(seventh[0] == events[6]);
    assert(verification_actions(
        vector_len,
        batch_size,
        certificate,
        VerifierStage::Binding,
        events,
    ) =~= seq![
        VerifierActionModel::ReceiveCommitment,
        VerifierActionModel::RunHook,
        VerifierActionModel::ReceiveDigest,
        VerifierActionModel::VerifyOpenings,
        VerifierActionModel::VerifyFinalClaim,
        VerifierActionModel::RequireEnd,
    ]);
}

/// Readings that are not refused as a whole are what a run accepts with, once
/// every action gave its part of them.
pub proof fn unrefused_readings_complete(
    vector_len: usize,
    batch_size: usize,
    certificate: StreamsModel,
    readings: SchemeReadings,
)
    requires
        opening::verification_error(vector_len, batch_size, certificate, readings) is None,
    ensures
        verification_end(
            vector_len,
            batch_size,
            certificate,
            VerifierStage::Binding,
            seq![
                VerifierEvent::SessionBound { outcome: Ok(readings.hashes_before) },
                VerifierEvent::CommitmentReceived { received: readings.commitment_received },
                VerifierEvent::HookReturned {
                    outcome: Ok((readings.claims->Ok_0, readings.computed_security)),
                },
                VerifierEvent::DigestReceived { digest: readings.received_digest },
                VerifierEvent::OpeningsVerified { accepted: readings.accepted },
                VerifierEvent::FinalClaimVerified { accepted: readings.accepted },
                VerifierEvent::EndChecked {
                    reached: readings.accepted,
                    hash_count: readings.hashes_after,
                },
            ],
        ) == (VerifierMove::Finished {
            claims: readings.claims->Ok_0,
            computed_security: readings.computed_security,
            hashes_before: readings.hashes_before,
            hashes_after: readings.hashes_after,
        }),
{
    reveal_with_fuel(verification_end, 8);
}

} // verus!
