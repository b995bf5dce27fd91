//! Failures reported by the cluster runtime.

use vstd::prelude::*;
use crate::identity::IdentityError;

verus! {

/// Why a cluster-runtime operation was refused.
#[derive(Clone, Copy, Debug, PartialEq, Eq, Structural)]
pub enum ClusterError {
    LaneCapacityOverflowed,
    CapacityExceedsIdentityDomain,
    ReadyBudgetZero,
    LaneCountOverflowed,
    LaneCapacityReached,
    FamilyCapacityReached,
    OwnerReused,
    SeedChangesOnlyByReplacement,
    FamilyLanesRemovedTogether,
    OwnerStale,
    FamilyStale,
    FamilyAlreadyInstalled,
    SeedAlreadyInstalled,
    SeedNotInstalled,
    FamilyLaneStateDiverged,
    LaneUnclaimed,
    LaneClaimedTwice,
    ClaimIndexStale,
    ScramProofOwnerDuplicated,
    IdentitiesExhausted,
    RefreshFamilyVanished,
    RefreshFenceDiverged,
    RefreshLaneLostFamily,
    RefreshShapeDiverged,
    RefreshFamilyDiverged,
    RefreshSupersessionVanished,
    RefreshOutcomeEpochDiverged,
    RefreshSupersessionStateDiverged,
}

/// The text each failure carries.
pub open spec fn error_text(error: ClusterError) -> Seq<char> {
    match error {
        ClusterError::LaneCapacityOverflowed => "Bornera cluster lane capacity overflowed"@,
        ClusterError::CapacityExceedsIdentityDomain => "Bornera cluster lane capacity exceeds the identity domain"@,
        ClusterError::ReadyBudgetZero => "Bornera ready-lane budget must be nonzero"@,
        ClusterError::LaneCountOverflowed => "Bornera cluster lane count overflowed"@,
        ClusterError::LaneCapacityReached => "Bornera cluster lane capacity reached"@,
        ClusterError::FamilyCapacityReached => "Bornera cluster broker family capacity reached"@,
        ClusterError::OwnerReused => "Bornera cluster lane owner was reused"@,
        ClusterError::SeedChangesOnlyByReplacement => "Bornera cluster seed can only change through replacement"@,
        ClusterError::FamilyLanesRemovedTogether => "Bornera broker-family lanes must be removed together"@,
        ClusterError::OwnerStale => "Bornera cluster lane owner is stale"@,
        ClusterError::FamilyStale => "Bornera broker family is stale"@,
        ClusterError::FamilyAlreadyInstalled => "Bornera broker family is already installed"@,
        ClusterError::SeedAlreadyInstalled => "Bornera cluster seed is already installed"@,
        ClusterError::SeedNotInstalled => "Bornera cluster seed is not installed"@,
        ClusterError::FamilyLaneStateDiverged => "Bornera broker family lane state diverged"@,
        ClusterError::LaneUnclaimed => "Bornera cluster lane is unclaimed"@,
        ClusterError::LaneClaimedTwice => "Bornera cluster lane is claimed twice"@,
        ClusterError::ClaimIndexStale => "Bornera cluster claim index is stale"@,
        ClusterError::ScramProofOwnerDuplicated => "Bornera SCRAM proof connection owner is duplicated"@,
        ClusterError::IdentitiesExhausted => "Bornera endpoint identities exhausted"@,
        ClusterError::RefreshFamilyVanished => "Bornera refresh family slot vanished"@,
        ClusterError::RefreshFenceDiverged => "Bornera broker endpoint-refresh lifecycle fence diverged"@,
        ClusterError::RefreshLaneLostFamily => "Bornera endpoint-refresh lane lost its broker family"@,
        ClusterError::RefreshShapeDiverged => "Bornera refresh family and physical lane counts diverged"@,
        ClusterError::RefreshFamilyDiverged => "Bornera broker endpoint-refresh family diverged"@,
        ClusterError::RefreshSupersessionVanished => "Bornera endpoint-refresh supersession fence vanished"@,
        ClusterError::RefreshOutcomeEpochDiverged => "Bornera endpoint-refresh outcome epoch diverged"@,
        ClusterError::RefreshSupersessionStateDiverged => "Bornera endpoint-refresh supersession state diverged"@,
    }
}

impl ClusterError {
    /// The human-readable text of this failure.
    pub fn message(&self) -> (text: &'static str)
        ensures
            text@ == error_text(*self),
    {
        proof {
            reveal_strlit("Bornera cluster lane capacity overflowed");
            reveal_strlit("Bornera cluster lane capacity exceeds the identity domain");
            reveal_strlit("Bornera ready-lane budget must be nonzero");
            reveal_strlit("Bornera cluster lane count overflowed");
            reveal_strlit("Bornera cluster lane capacity reached");
            reveal_strlit("Bornera cluster broker family capacity reached");
            reveal_strlit("Bornera cluster lane owner was reused");
            reveal_strlit("Bornera cluster seed can only change through replacement");
            reveal_strlit("Bornera broker-family lanes must be removed together");
            reveal_strlit("Bornera cluster lane owner is stale");
            reveal_strlit("Bornera broker family is stale");
            reveal_strlit("Bornera broker family is already installed");
            reveal_strlit("Bornera cluster seed is already installed");
            reveal_strlit("Bornera cluster seed is not installed");
            reveal_strlit("Bornera broker family lane state diverged");
            reveal_strlit("Bornera cluster lane is unclaimed");
            reveal_strlit("Bornera cluster lane is claimed twice");
            reveal_strlit("Bornera cluster claim index is stale");
            reveal_strlit("Bornera SCRAM proof connection owner is duplicated");
            reveal_strlit("Bornera endpoint identities exhausted");
            reveal_strlit("Bornera refresh family slot vanished");
            reveal_strlit("Bornera broker endpoint-refresh lifecycle fence diverged");
            reveal_strlit("Bornera endpoint-refresh lane lost its broker family");
            reveal_strlit("Bornera refresh family and physical lane counts diverged");
            reveal_strlit("Bornera broker endpoint-refresh family diverged");
            reveal_strlit("Bornera endpoint-refresh supersession fence vanished");
            reveal_strlit("Bornera endpoint-refresh outcome epoch diverged");
            reveal_strlit("Bornera endpoint-refresh supersession state diverged");
        }
        match self {
            ClusterError::LaneCapacityOverflowed => "Bornera cluster lane capacity overflowed",
            ClusterError::CapacityExceedsIdentityDomain => "Bornera cluster lane capacity exceeds the identity domain",
            ClusterError::ReadyBudgetZero => "Bornera ready-lane budget must be nonzero",
            ClusterError::LaneCountOverflowed => "Bornera cluster lane count overflowed",
            ClusterError::LaneCapacityReached => "Bornera cluster lane capacity reached",
            ClusterError::FamilyCapacityReached => "Bornera cluster broker family capacity reached",
            ClusterError::OwnerReused => "Bornera cluster lane owner was reused",
            ClusterError::SeedChangesOnlyByReplacement => "Bornera cluster seed can only change through replacement",
            ClusterError::FamilyLanesRemovedTogether => "Bornera broker-family lanes must be removed together",
            ClusterError::OwnerStale => "Bornera cluster lane owner is stale",
            ClusterError::FamilyStale => "Bornera broker family is stale",
            ClusterError::FamilyAlreadyInstalled => "Bornera broker family is already installed",
            ClusterError::SeedAlreadyInstalled => "Bornera cluster seed is already installed",
            ClusterError::SeedNotInstalled => "Bornera cluster seed is not installed",
            ClusterError::FamilyLaneStateDiverged => "Bornera broker family lane state diverged",
            ClusterError::LaneUnclaimed => "Bornera cluster lane is unclaimed",
            ClusterError::LaneClaimedTwice => "Bornera cluster lane is claimed twice",
            ClusterError::ClaimIndexStale => "Bornera cluster claim index is stale",
            ClusterError::ScramProofOwnerDuplicated => "Bornera SCRAM proof connection owner is duplicated",
            ClusterError::IdentitiesExhausted => "Bornera endpoint identities exhausted",
            ClusterError::RefreshFamilyVanished => "Bornera refresh family slot vanished",
            ClusterError::RefreshFenceDiverged => "Bornera broker endpoint-refresh lifecycle fence diverged",
            ClusterError::RefreshLaneLostFamily => "Bornera endpoint-refresh lane lost its broker family",
            ClusterError::RefreshShapeDiverged => "Bornera refresh family and physical lane counts diverged",
            ClusterError::RefreshFamilyDiverged => "Bornera broker endpoint-refresh family diverged",
            ClusterError::RefreshSupersessionVanished => "Bornera endpoint-refresh supersession fence vanished",
            ClusterError::RefreshOutcomeEpochDiverged => "Bornera endpoint-refresh outcome epoch diverged",
            ClusterError::RefreshSupersessionStateDiverged => "Bornera endpoint-refresh supersession state diverged",
        }
    }
}

/// Converts an allocator failure into the runtime's failure.
pub fn identity_error(error: IdentityError) -> (converted: ClusterError)
    ensures
        converted == ClusterError::IdentitiesExhausted,
{
    match error {
        IdentityError::Exhausted => ClusterError::IdentitiesExhausted,
    }
}

} // verus!
