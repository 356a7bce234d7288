//! The order of an opening proof's transcript, for a prover and for a verifier.
//!
//! A run asks for one action at a time and goes on with what that action gave.
//! Neither side can skip a step: the digest that a prover sends, and that a
//! verifier expects, is taken of the very claims that are then proved.

use vstd::prelude::*;

use crate::binary64::Binary64;
use crate::bytes;
use crate::field::PcsField;
use crate::opening;
use crate::opening::{
    Certificate, CommitmentLayout, ProverOutput, RoundLayout, SchemeModel, SchemeProof,
    StreamsModel, VerifierMetrics,
};
use crate::pcs;
use crate::pcs::{OpeningClaims, PcsError, PcsProtocol, SESSION_TAG};

verus! {

/// What a proving run asks for.
#[derive(Clone, Copy, Debug, PartialEq, Eq)]
pub enum ProverAction {
    /// Start a transcript under the fixed profile, the session tag and the
    /// digest of the public statement.
    BindSession { session: &'static str, statement_digest: [u8; 32] },
    /// Commit to the batch of vectors.
    Commit,
    /// Run the application's part of the transcript.
    RunHook,
    /// Send the digest of the opening statement.
    SendDigest { digest: [u8; 32] },
    /// Prove the openings that the run claims.
    Prove,
}

/// What a proving run asks for, in terms of its bytes.
#[verifier::ext_equal]
pub enum ProverActionModel {
    BindSession { session: Seq<char>, statement_digest: Seq<u8> },
    Commit,
    RunHook,
    SendDigest { digest: Seq<u8> },
    Prove,
}

impl View for ProverAction {
    type V = ProverActionModel;

    open spec fn view(&self) -> ProverActionModel {
        match self {
            ProverAction::BindSession { session, statement_digest } => {
                ProverActionModel::BindSession {
                    session: session@,
                    statement_digest: statement_digest@,
                }
            },
            ProverAction::Commit => ProverActionModel::Commit,
            ProverAction::RunHook => ProverActionModel::RunHook,
            ProverAction::SendDigest { digest } => ProverActionModel::SendDigest {
                digest: digest@,
            },
            ProverAction::Prove => ProverActionModel::Prove,
        }
    }
}

/// What an action of a proving run gave.
#[derive(Debug)]
pub enum ProverEvent {
    SessionBound { hash_count: usize },
    Committed { layout: CommitmentLayout },
    /// The opening statement with the scheme's security bound for its number of
    /// points, or why the application gave none.
    HookReturned { outcome: Result<(OpeningClaims, Binary64), String> },
    DigestSent,
    Proved { rounds: Vec<RoundLayout>, narg_string: Vec<u8>, hints: Vec<u8>, hash_count: usize },
}

/// How far a proving run is.
#[derive(Debug)]
pub enum ProverStage {
    Binding,
    Committing { hashes_before: usize },
    Hooking { hashes_before: usize, layout: CommitmentLayout },
    Sending {
        hashes_before: usize,
        layout: CommitmentLayout,
        claims: OpeningClaims,
        computed_security: Binary64,
    },
    Proving {
        hashes_before: usize,
        layout: CommitmentLayout,
        claims: OpeningClaims,
        computed_security: Binary64,
    },
}

/// Where an event takes a proving run.
pub enum ProverMove {
    Next { stage: ProverStage, action: ProverActionModel },
    Finished { claims: OpeningClaims, proof_of: SchemeModel },
    Refused { error: PcsError },
    OutOfOrder,
}

/// The action that opens a proving run.
pub open spec fn first_prover_action(statement_digest: Seq<u8>) -> ProverActionModel {
    ProverActionModel::BindSession { session: SESSION_TAG@, statement_digest }
}

/// Where an event takes a proving run over a table shape.
pub open spec fn proof_step(
    vector_len: usize,
    batch_size: usize,
    stage: ProverStage,
    event: ProverEvent,
) -> ProverMove {
    match (stage, event) {
        (ProverStage::Binding, ProverEvent::SessionBound { hash_count }) => ProverMove::Next {
            stage: ProverStage::Committing { hashes_before: hash_count },
            action: ProverActionModel::Commit,
        },
        (ProverStage::Committing { hashes_before }, ProverEvent::Committed { layout }) => {
            ProverMove::Next {
                stage: ProverStage::Hooking { hashes_before, layout },
                action: ProverActionModel::RunHook,
            }
        },
        (ProverStage::Hooking { hashes_before, layout }, ProverEvent::HookReturned { outcome }) => {
            match outcome {
                Err(message) => ProverMove::Refused { error: PcsError::TranscriptHook { message } },
                Ok((claims, computed_security)) => match pcs::claims_error(
                    pcs::exponent_of(vector_len as nat),
                    batch_size,
                    claims@,
                    computed_security,
                ) {
                    Some(error) => ProverMove::Refused { error },
                    None => ProverMove::Next {
                        stage: ProverStage::Sending {
                            hashes_before,
                            layout,
                            claims,
                            computed_security,
                        },
                        action: ProverActionModel::SendDigest {
                            digest: pcs::opening_digest(vector_len, batch_size, claims@),
                        },
                    },
                },
            }
        },
        (
            ProverStage::Sending { hashes_before, layout, claims, computed_security },
            ProverEvent::DigestSent,
        ) => ProverMove::Next {
            stage: ProverStage::Proving { hashes_before, layout, claims, computed_security },
            action: ProverActionModel::Prove,
        },
        (
            ProverStage::Proving { hashes_before, layout, claims, computed_security },
            ProverEvent::Proved { rounds, narg_string, hints, hash_count },
        ) => {
            let proof_of = SchemeModel {
                computed_security,
                layout,
                rounds: rounds@,
                streams: StreamsModel { narg_string: narg_string@, hints: hints@ },
                hashes_before,
                hashes_after: hash_count,
            };
            if opening::high_watermark(
                vector_len,
                batch_size,
                layout,
                proof_of.rounds,
                proof_of.streams,
            ) > usize::MAX {
                ProverMove::Refused { error: PcsError::SizeOverflow }
            } else {
                match pcs::security_outcome(computed_security) {
                    Err(error) => ProverMove::Refused { error },
                    Ok(_) => ProverMove::Finished { claims, proof_of },
                }
            }
        },
        _ => ProverMove::OutOfOrder,
    }
}

/// A proving run that waits for what its last action gave.
#[derive(Debug)]
pub struct ProverRun<'a> {
    protocol: &'a PcsProtocol,
    stage: ProverStage,
}

/// How a proving run goes on.
#[derive(Debug)]
pub enum ProverTurn<'a> {
    /// The run asks for another action.
    Next { run: ProverRun<'a>, action: ProverAction },
    /// The proof is complete.
    Finished { output: ProverOutput },
    /// The openings are refused.
    Refused { error: PcsError },
    /// The event does not answer the action that the run asked for.
    OutOfOrder,
}

impl<'a> ProverRun<'a> {
    /// The table shape that the run proves openings of.
    pub closed spec fn of(&self) -> PcsProtocol {
        *self.protocol
    }

    /// How far the run is.
    pub closed spec fn stage(&self) -> ProverStage {
        self.stage
    }

    /// The claims whose digest the run sends and which it then proves.
    pub fn claims(&self) -> (claims: Option<&OpeningClaims>)
        ensures
            (match self.stage() {
                ProverStage::Sending { claims: stated, .. } => claims == Some(&stated),
                ProverStage::Proving { claims: stated, .. } => claims == Some(&stated),
                _ => claims is None,
            }),
    {
        match &self.stage {
            ProverStage::Sending { claims, .. } => Some(claims),
            ProverStage::Proving { claims, .. } => Some(claims),
            _ => None,
        }
    }

    /// Goes on with what the last action gave.
    pub fn turn(self, event: ProverEvent) -> (turn: ProverTurn<'a>)
        ensures
            turn.makes(
                self.of(),
                proof_step(self.of().length(), self.of().batch(), self.stage(), event),
            ),
    {
        let protocol = self.protocol;
        match self.stage {
            ProverStage::Binding => match event {
                ProverEvent::SessionBound { hash_count } => ProverTurn::Next {
                    run: ProverRun {
                        protocol,
                        stage: ProverStage::Committing { hashes_before: hash_count },
                    },
                    action: ProverAction::Commit,
                },
                _ => ProverTurn::OutOfOrder,
            },
            ProverStage::Committing { hashes_before } => match event {
                ProverEvent::Committed { layout } => ProverTurn::Next {
                    run: ProverRun {
                        protocol,
                        stage: ProverStage::Hooking { hashes_before, layout },
                    },
                    action: ProverAction::RunHook,
                },
                _ => ProverTurn::OutOfOrder,
            },
            ProverStage::Hooking { hashes_before, layout } => match event {
                ProverEvent::HookReturned { outcome } => {
                    let (claims, computed_security) = match outcome {
                        Ok(found) => found,
                        Err(message) => {
                            return ProverTurn::Refused {
                                error: PcsError::TranscriptHook { message },
                            };
                        },
                    };
                    match protocol.bind_openings(&claims, computed_security) {
                        Err(error) => ProverTurn::Refused { error },
                        Ok(digest) => ProverTurn::Next {
                            run: ProverRun {
                                protocol,
                                stage: ProverStage::Sending {
                                    hashes_before,
                                    layout,
                                    claims,
                                    computed_security,
                                },
                            },
                            action: ProverAction::SendDigest { digest },
                        },
                    }
                },
                _ => ProverTurn::OutOfOrder,
            },
            ProverStage::Sending { hashes_before, layout, claims, computed_security } => {
                match event {
                    ProverEvent::DigestSent => ProverTurn::Next {
                        run: ProverRun {
                            protocol,
                            stage: ProverStage::Proving {
                                hashes_before,
                                layout,
                                claims,
                                computed_security,
                            },
                        },
                        action: ProverAction::Prove,
                    },
                    _ => ProverTurn::OutOfOrder,
                }
            },
            ProverStage::Proving { hashes_before, layout, claims, computed_security } => {
                match event {
                    ProverEvent::Proved { rounds, narg_string, hints, hash_count } => {
                        let proof_of = SchemeProof {
                            computed_security,
                            layout,
                            rounds,
                            narg_string,
                            hints,
                            hashes_before,
                            hashes_after: hash_count,
                        };
                        match protocol.account_for_proof(claims, proof_of) {
                            Ok(output) => ProverTurn::Finished { output },
                            Err(error) => ProverTurn::Refused { error },
                        }
                    },
                    _ => ProverTurn::OutOfOrder,
                }
            },
        }
    }
}

impl<'a> ProverTurn<'a> {
    /// Whether the turn makes a move of a run over a table shape.
    pub open spec fn makes(&self, of: PcsProtocol, made: ProverMove) -> bool {
        match made {
            ProverMove::Next { stage, action: asked } => {
                &&& self matches ProverTurn::Next { run, action }
                &&& run.of() == of
                &&& run.stage() == stage
                &&& action@ == asked
            },
            ProverMove::Finished { claims, proof_of } => {
                &&& self matches ProverTurn::Finished { output }
                &&& output.claims == claims
                &&& output.certificate@ == proof_of.streams
                &&& opening::accounts_for(output.metrics, of.length(), of.batch(), proof_of)
            },
            ProverMove::Refused { error: refused } => {
                &&& self matches ProverTurn::Refused { error }
                &&& error == refused
            },
            ProverMove::OutOfOrder => self is OutOfOrder,
        }
    }
}

/// What a verifying run asks for.
#[derive(Clone, Copy, Debug, PartialEq, Eq)]
pub enum VerifierAction {
    /// Start a transcript over the certificate under the fixed profile, the
    /// session tag and the digest of the public statement.
    BindSession { session: &'static str, statement_digest: [u8; 32] },
    /// Read the commitment.
    ReceiveCommitment,
    /// Replay the application's part of the transcript.
    RunHook,
    /// Read the digest of the opening statement.
    ReceiveDigest,
    /// Verify the openings that the run claims.
    VerifyOpenings,
    /// Verify the deferred final claim.
    VerifyFinalClaim,
    /// Require that nothing of the proof is left unread.
    RequireEnd,
}

/// What a verifying run asks for, in terms of its bytes.
#[verifier::ext_equal]
pub enum VerifierActionModel {
    BindSession { session: Seq<char>, statement_digest: Seq<u8> },
    ReceiveCommitment,
    RunHook,
    ReceiveDigest,
    VerifyOpenings,
    VerifyFinalClaim,
    RequireEnd,
}

impl View for VerifierAction {
    type V = VerifierActionModel;

    open spec fn view(&self) -> VerifierActionModel {
        match self {
            VerifierAction::BindSession { session, statement_digest } => {
                VerifierActionModel::BindSession {
                    session: session@,
                    statement_digest: statement_digest@,
                }
            },
            VerifierAction::ReceiveCommitment => VerifierActionModel::ReceiveCommitment,
            VerifierAction::RunHook => VerifierActionModel::RunHook,
            VerifierAction::ReceiveDigest => VerifierActionModel::ReceiveDigest,
            VerifierAction::VerifyOpenings => VerifierActionModel::VerifyOpenings,
            VerifierAction::VerifyFinalClaim => VerifierActionModel::VerifyFinalClaim,
            VerifierAction::RequireEnd => VerifierActionModel::RequireEnd,
        }
    }
}

/// What an action of a verifying run gave.
#[derive(Debug)]
pub enum VerifierEvent {
    /// The hash count at the start, or why the certificate holds no proof.
    SessionBound { outcome: Result<usize, String> },
    CommitmentReceived { received: bool },
    /// The opening statement with the scheme's security bound for its number of
    /// points, or why the application gave none.
    HookReturned { outcome: Result<(OpeningClaims, Binary64), String> },
    DigestReceived { digest: Option<[u8; 32]> },
    OpeningsVerified { accepted: bool },
    FinalClaimVerified { accepted: bool },
    EndChecked { reached: bool, hash_count: usize },
}

/// How far a verifying run is.
#[derive(Debug)]
pub enum VerifierStage {
    Binding,
    Receiving { hashes_before: usize },
    Hooking { hashes_before: usize },
    Matching { hashes_before: usize, claims: OpeningClaims, computed_security: Binary64 },
    Verifying { hashes_before: usize, claims: OpeningClaims, computed_security: Binary64 },
    Closing { hashes_before: usize, claims: OpeningClaims, computed_security: Binary64 },
    Ending { hashes_before: usize, claims: OpeningClaims, computed_security: Binary64 },
}

/// Where an event takes a verifying run.
pub enum VerifierMove {
    Next { stage: VerifierStage, action: VerifierActionModel },
    Finished {
        claims: OpeningClaims,
        computed_security: Binary64,
        hashes_before: usize,
        hashes_after: usize,
    },
    Refused { error: PcsError },
    OutOfOrder,
}

/// The action that opens a verifying run.
pub open spec fn first_verifier_action(statement_digest: Seq<u8>) -> VerifierActionModel {
    VerifierActionModel::BindSession { session: SESSION_TAG@, statement_digest }
}

/// Goes on where the scheme accepts, and refuses otherwise.
pub open spec fn accepted_move(
    accepted: bool,
    stage: VerifierStage,
    action: VerifierActionModel,
) -> VerifierMove {
    if accepted {
        VerifierMove::Next { stage, action }
    } else {
        VerifierMove::Refused { error: PcsError::Verification }
    }
}

/// Where an event takes a verifying run over a table shape and a certificate.
pub open spec fn verification_step(
    vector_len: usize,
    batch_size: usize,
    certificate: StreamsModel,
    stage: VerifierStage,
    event: VerifierEvent,
) -> VerifierMove {
    match (stage, event) {
        (VerifierStage::Binding, VerifierEvent::SessionBound { outcome }) => match outcome {
            Err(message) => VerifierMove::Refused {
                error: PcsError::InternalProofDecode { message },
            },
            Ok(hash_count) => VerifierMove::Next {
                stage: VerifierStage::Receiving { hashes_before: hash_count },
                action: VerifierActionModel::ReceiveCommitment,
            },
        },
        (
            VerifierStage::Receiving { hashes_before },
            VerifierEvent::CommitmentReceived { received },
        ) => accepted_move(
            received,
            VerifierStage::Hooking { hashes_before },
            VerifierActionModel::RunHook,
        ),
        (VerifierStage::Hooking { hashes_before }, VerifierEvent::HookReturned { outcome }) => {
            match outcome {
                Err(message) => VerifierMove::Refused {
                    error: PcsError::TranscriptHook { message },
                },
                Ok((claims, computed_security)) => match pcs::claims_error(
                    pcs::exponent_of(vector_len as nat),
                    batch_size,
                    claims@,
                    computed_security,
                ) {
                    Some(error) => VerifierMove::Refused { error },
                    None => VerifierMove::Next {
                        stage: VerifierStage::Matching {
                            hashes_before,
                            claims,
                            computed_security,
                        },
                        action: VerifierActionModel::ReceiveDigest,
                    },
                },
            }
        },
        (
            VerifierStage::Matching { hashes_before, claims, computed_security },
            VerifierEvent::DigestReceived { digest },
        ) => match digest {
            None => VerifierMove::Refused { error: PcsError::Verification },
            Some(received) => if received@ != pcs::opening_digest(
                vector_len,
                batch_size,
                claims@,
            ) {
                VerifierMove::Refused { error: PcsError::OpeningStatementDigestMismatch }
            } else {
                VerifierMove::Next {
                    stage: VerifierStage::Verifying { hashes_before, claims, computed_security },
                    action: VerifierActionModel::VerifyOpenings,
                }
            },
        },
        (
            VerifierStage::Verifying { hashes_before, claims, computed_security },
            VerifierEvent::OpeningsVerified { accepted },
        ) => accepted_move(
            accepted,
            VerifierStage::Closing { hashes_before, claims, computed_security },
            VerifierActionModel::VerifyFinalClaim,
        ),
        (
            VerifierStage::Closing { hashes_before, claims, computed_security },
            VerifierEvent::FinalClaimVerified { accepted },
        ) => accepted_move(
            accepted,
            VerifierStage::Ending { hashes_before, claims, computed_security },
            VerifierActionModel::RequireEnd,
        ),
        (
            VerifierStage::Ending { hashes_before, claims, computed_security },
            VerifierEvent::EndChecked { reached, hash_count },
        ) => if !reached {
            VerifierMove::Refused { error: PcsError::Verification }
        } else if opening::certificate_length(certificate) > usize::MAX {
            VerifierMove::Refused { error: PcsError::SizeOverflow }
        } else {
            match pcs::security_outcome(computed_security) {
                Err(error) => VerifierMove::Refused { error },
                Ok(_) => VerifierMove::Finished {
                    claims,
                    computed_security,
                    hashes_before,
                    hashes_after: hash_count,
                },
            }
        },
        _ => VerifierMove::OutOfOrder,
    }
}

/// A verifying run that waits for what its last action gave.
#[derive(Debug)]
pub struct VerifierRun<'a> {
    protocol: &'a PcsProtocol,
    certificate: &'a Certificate,
    stage: VerifierStage,
}

/// How a verifying run goes on.
#[derive(Debug)]
pub enum VerifierTurn<'a> {
    /// The run asks for another action.
    Next { run: VerifierRun<'a>, action: VerifierAction },
    /// The openings are accepted.
    Finished { metrics: VerifierMetrics },
    /// The openings are refused.
    Refused { error: PcsError },
    /// The event does not answer the action that the run asked for.
    OutOfOrder,
}

impl<'a> VerifierRun<'a> {
    /// The table shape that the run verifies openings of.
    pub closed spec fn of(&self) -> PcsProtocol {
        *self.protocol
    }

    /// The certificate that the run reads.
    pub closed spec fn reads(&self) -> StreamsModel {
        self.certificate@
    }

    /// How far the run is.
    pub closed spec fn stage(&self) -> VerifierStage {
        self.stage
    }

    /// The claims whose digest the run expects and which it then verifies.
    pub fn claims(&self) -> (claims: Option<&OpeningClaims>)
        ensures
            (match self.stage() {
                VerifierStage::Matching { claims: stated, .. } => claims == Some(&stated),
                VerifierStage::Verifying { claims: stated, .. } => claims == Some(&stated),
                VerifierStage::Closing { claims: stated, .. } => claims == Some(&stated),
                VerifierStage::Ending { claims: stated, .. } => claims == Some(&stated),
                _ => claims is None,
            }),
    {
        match &self.stage {
            VerifierStage::Matching { claims, .. } => Some(claims),
            VerifierStage::Verifying { claims, .. } => Some(claims),
            VerifierStage::Closing { claims, .. } => Some(claims),
            VerifierStage::Ending { claims, .. } => Some(claims),
            _ => None,
        }
    }

    /// Asks for another action where the scheme accepted the last one.
    fn go_on(
        protocol: &'a PcsProtocol,
        certificate: &'a Certificate,
        accepted: bool,
        stage: VerifierStage,
        action: VerifierAction,
    ) -> (turn: VerifierTurn<'a>)
        ensures
            turn.makes(*protocol, certificate@, accepted_move(accepted, stage, action@)),
    {
        if !accepted {
            return VerifierTurn::Refused { error: PcsError::Verification };
        }
        VerifierTurn::Next { run: VerifierRun { protocol, certificate, stage }, action }
    }

    /// Takes up the opening statement of the application.
    fn take_claims(
        protocol: &'a PcsProtocol,
        certificate: &'a Certificate,
        hashes_before: usize,
        outcome: Result<(OpeningClaims, Binary64), String>,
    ) -> (turn: VerifierTurn<'a>)
        ensures
            turn.makes(
                *protocol,
                certificate@,
                verification_step(
                    protocol.length(),
                    protocol.batch(),
                    certificate@,
                    VerifierStage::Hooking { hashes_before },
                    VerifierEvent::HookReturned { outcome },
                ),
            ),
    {
        let (claims, computed_security) = match outcome {
            Ok(found) => found,
            Err(message) => {
                return VerifierTurn::Refused { error: PcsError::TranscriptHook { message } };
            },
        };
        match protocol.validate_claims(&claims, computed_security) {
            Err(error) => VerifierTurn::Refused { error },
            Ok(_) => VerifierTurn::Next {
                run: VerifierRun {
                    protocol,
                    certificate,
                    stage: VerifierStage::Matching { hashes_before, claims, computed_security },
                },
                action: VerifierAction::ReceiveDigest,
            },
        }
    }

    /// Goes on with what the last action gave.
    pub fn turn(self, event: VerifierEvent) -> (turn: VerifierTurn<'a>)
        ensures
            turn.makes(
                self.of(),
                self.reads(),
                verification_step(
                    self.of().length(),
                    self.of().batch(),
                    self.reads(),
                    self.stage(),
                    event,
                ),
            ),
    {
        let protocol = self.protocol;
        let certificate = self.certificate;
        match self.stage {
            VerifierStage::Binding => match event {
                VerifierEvent::SessionBound { outcome } => match outcome {
                    Err(message) => VerifierTurn::Refused {
                        error: PcsError::InternalProofDecode { message },
                    },
                    Ok(hash_count) => VerifierTurn::Next {
                        run: VerifierRun {
                            protocol,
                            certificate,
                            stage: VerifierStage::Receiving { hashes_before: hash_count },
                        },
                        action: VerifierAction::ReceiveCommitment,
                    },
                },
                _ => VerifierTurn::OutOfOrder,
            },
            VerifierStage::Receiving { hashes_before } => match event {
                VerifierEvent::CommitmentReceived { received } => Self::go_on(
                    protocol,
                    certificate,
                    received,
                    VerifierStage::Hooking { hashes_before },
                    VerifierAction::RunHook,
                ),
                _ => VerifierTurn::OutOfOrder,
            },
            VerifierStage::Hooking { hashes_before } => match event {
                VerifierEvent::HookReturned { outcome } => Self::take_claims(
                    protocol,
                    certificate,
                    hashes_before,
                    outcome,
                ),
                _ => VerifierTurn::OutOfOrder,
            },
            VerifierStage::Matching { hashes_before, claims, computed_security } => match event {
                VerifierEvent::DigestReceived { digest } => {
                    let received = match digest {
                        Some(received) => received,
                        None => {
                            return VerifierTurn::Refused { error: PcsError::Verification };
                        },
                    };
                    let expected = protocol.opening_digest(&claims);
                    if !bytes::same_bytes(received.as_slice(), expected.as_slice()) {
                        return VerifierTurn::Refused {
                            error: PcsError::OpeningStatementDigestMismatch,
                        };
                    }
                    Self::go_on(
                        protocol,
                        certificate,
                        true,
                        VerifierStage::Verifying { hashes_before, claims, computed_security },
                        VerifierAction::VerifyOpenings,
                    )
                },
                _ => VerifierTurn::OutOfOrder,
            },
            VerifierStage::Verifying { hashes_before, claims, computed_security } => match event {
                VerifierEvent::OpeningsVerified { accepted } => Self::go_on(
                    protocol,
                    certificate,
                    accepted,
                    VerifierStage::Closing { hashes_before, claims, computed_security },
                    VerifierAction::VerifyFinalClaim,
                ),
                _ => VerifierTurn::OutOfOrder,
            },
            VerifierStage::Closing { hashes_before, claims, computed_security } => match event {
                VerifierEvent::FinalClaimVerified { accepted } => Self::go_on(
                    protocol,
                    certificate,
                    accepted,
                    VerifierStage::Ending { hashes_before, claims, computed_security },
                    VerifierAction::RequireEnd,
                ),
                _ => VerifierTurn::OutOfOrder,
            },
            VerifierStage::Ending { hashes_before, claims, computed_security } => match event {
                VerifierEvent::EndChecked { reached, hash_count } => {
                    if !reached {
                        return VerifierTurn::Refused { error: PcsError::Verification };
                    }
                    match protocol.measure_verification(
                        certificate,
                        &claims,
                        computed_security,
                        hashes_before,
                        hash_count,
                    ) {
                        Ok(metrics) => VerifierTurn::Finished { metrics },
                        Err(error) => VerifierTurn::Refused { error },
                    }
                },
                _ => VerifierTurn::OutOfOrder,
            },
        }
    }
}

impl<'a> VerifierTurn<'a> {
    /// Whether the turn makes a move of a run over a table shape and a
    /// certificate.
    pub open spec fn makes(&self, of: PcsProtocol, reads: StreamsModel, made: VerifierMove) -> bool {
        match made {
            VerifierMove::Next { stage, action: asked } => {
                &&& self matches VerifierTurn::Next { run, action }
                &&& run.of() == of
                &&& run.reads() == reads
                &&& run.stage() == stage
                &&& action@ == asked
            },
            VerifierMove::Finished {
                claims,
                computed_security,
                hashes_before,
                hashes_after,
            } => {
                &&& self matches VerifierTurn::Finished { metrics }
                &&& opening::measures(
                    *metrics,
                    reads,
                    claims@,
                    computed_security,
                    hashes_before,
                    hashes_after,
                )
            },
            VerifierMove::Refused { error: refused } => {
                &&& self matches VerifierTurn::Refused { error }
                &&& error == refused
            },
            VerifierMove::OutOfOrder => self is OutOfOrder,
        }
    }
}

impl PcsProtocol {
    /// Starts proving openings of a batch under a public statement.
    pub fn begin_proof(&self, statement_digest: &[u8; 32], vectors: &[Vec<PcsField>]) -> (result:
        Result<(ProverRun<'_>, ProverAction), PcsError>)
        ensures
            (if vectors@.len() != self.batch() {
                result matches Err(error) && error == (PcsError::WrongBatchSize {
                    expected: self.batch(),
                    actual: vectors@.len() as usize,
                })
            } else {
                match pcs::lengths_error(pcs::tables(vectors@), self.length(), vectors@.len()) {
                    Some(refused) => result matches Err(error) && error == refused,
                    None => {
                        &&& result matches Ok((run, action))
                        &&& run.of() == *self
                        &&& run.stage() == ProverStage::Binding
                        &&& action@ == first_prover_action(statement_digest@)
                    },
                }
            }),
    {
        if let Err(error) = self.validate_vectors(vectors) {
            return Err(error);
        }
        Ok(
            (
                ProverRun { protocol: self, stage: ProverStage::Binding },
                ProverAction::BindSession {
                    session: SESSION_TAG,
                    statement_digest: *statement_digest,
                },
            ),
        )
    }

    /// Starts verifying a certificate under a public statement.
    pub fn begin_verification<'a>(
        &'a self,
        statement_digest: &[u8; 32],
        certificate: &'a Certificate,
    ) -> (started: (VerifierRun<'a>, VerifierAction))
        ensures
            started.0.of() == *self,
            started.0.reads() == certificate@,
            started.0.stage() == VerifierStage::Binding,
            started.1@ == first_verifier_action(statement_digest@),
    {
        (
            VerifierRun { protocol: self, certificate, stage: VerifierStage::Binding },
            VerifierAction::BindSession {
                session: SESSION_TAG,
                statement_digest: *statement_digest,
            },
        )
    }
}

} // verus!
