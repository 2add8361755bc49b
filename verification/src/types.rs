//! Plain data shared by the circle and reputation state machines.
use vstd::prelude::*;

verus! {

/// An on-chain account or contract, identified by a stable integer handle.
///
/// The ledger's own address type is opaque and compares through the host;
/// the state machines only ever test two addresses for equality, so a
/// handle that is equal exactly when the addresses are equal carries all
/// they need.
#[derive(Clone, Copy, Debug, PartialEq, Eq, Hash, Structural)]
pub struct AccountId(pub u64);

/// Errors of the circle contract. `code` gives the stable number clients
/// branch on.
#[derive(Clone, Copy, Debug, PartialEq, Eq, Structural)]
pub enum Error {
    NotInitialized,
    AlreadyInitialized,
    NotFound,
    BadStatus,
    AlreadyMember,
    NotMember,
    CircleFull,
    AlreadyPaid,
    Defaulted,
    NotDue,
    IsCreator,
    BadParams,
    NotCreator,
}

pub open spec fn error_code_spec(e: Error) -> u32 {
    match e {
        Error::NotInitialized => 1,
        Error::AlreadyInitialized => 2,
        Error::NotFound => 3,
        Error::BadStatus => 4,
        Error::AlreadyMember => 5,
        Error::NotMember => 6,
        Error::CircleFull => 7,
        Error::AlreadyPaid => 8,
        Error::Defaulted => 9,
        Error::NotDue => 10,
        Error::IsCreator => 11,
        Error::BadParams => 12,
        Error::NotCreator => 13,
    }
}

impl Error {
    /// The stable error number surfaced to clients as `Error(Contract, #N)`.
    pub fn code(&self) -> (c: u32)
        ensures
            c == error_code_spec(*self),
    {
        match self {
            Error::NotInitialized => 1,
            Error::AlreadyInitialized => 2,
            Error::NotFound => 3,
            Error::BadStatus => 4,
            Error::AlreadyMember => 5,
            Error::NotMember => 6,
            Error::CircleFull => 7,
            Error::AlreadyPaid => 8,
            Error::Defaulted => 9,
            Error::NotDue => 10,
            Error::IsCreator => 11,
            Error::BadParams => 12,
            Error::NotCreator => 13,
        }
    }
}

/// Lifecycle state of one circle.
#[derive(Clone, Copy, Debug, PartialEq, Eq, Structural)]
pub enum CircleStatus {
    Open,
    Active,
    Completed,
    Cancelled,
}

/// The contract-wide configuration written by `initialize`.
#[derive(Clone, Copy, Debug, PartialEq, Eq, Structural)]
pub struct GlobalConfig {
    pub admin: AccountId,
    pub reputation: AccountId,
}

/// The stored record of one circle.
#[derive(Clone, Copy, Debug, PartialEq, Eq, Structural)]
pub struct Circle {
    pub creator: AccountId,
    /// The token the circle runs in.
    pub token: AccountId,
    /// Per member per cycle, raw token units. > 0.
    pub contribution: i128,
    /// Flat security bond escrowed at join. >= 0. It prices default rather
    /// than fully collateralizing a member; a bond below `size * contribution`
    /// is intended.
    pub deposit: i128,
    /// Number of members required to activate. >= 2.
    pub size: u32,
    /// Seconds per cycle. >= 3600.
    pub period_secs: u64,
    pub status: CircleStatus,
    /// Ledger timestamp at activation; 0 while Open.
    pub started_at: u64,
    /// 0-based.
    pub current_cycle: u32,
}

/// Per-member standing inside one circle.
#[derive(Clone, Copy, Debug, PartialEq, Eq, Structural)]
pub struct MemberState {
    pub deposit_remaining: i128,
    pub received: bool,
    pub defaulted: bool,
}

/// One slot of the join order: who, their standing, and whether they have
/// contributed in the current cycle.
#[derive(Clone, Copy, Debug, PartialEq, Eq, Structural)]
pub struct MemberEntry {
    pub member: AccountId,
    pub state: MemberState,
    pub paid: bool,
}

/// The events a circle publishes; their shapes are what indexers fold.
#[derive(Clone, Copy, Debug, PartialEq, Eq, Structural)]
pub enum CircleEvent {
    Create { id: u32, creator: AccountId },
    Join { id: u32, member: AccountId },
    Start { id: u32 },
    Contrib { id: u32, member: AccountId, cycle: u32 },
    Slash { id: u32, member: AccountId, amount: i128 },
    Defaulted { id: u32, member: AccountId },
    Payout { id: u32, recipient: AccountId, amount: i128, cycle: u32 },
    Complete { id: u32 },
    Cancel { id: u32 },
}

/// What a successful call asks the ledger to carry out, in order.
#[derive(Clone, Copy, Debug, PartialEq, Eq, Structural)]
pub enum Effect {
    /// Move `amount` of the circle's token from `from` into escrow.
    Collect { from: AccountId, amount: i128 },
    /// Move `amount` of the circle's token out of escrow to `to`.
    Pay { to: AccountId, amount: i128 },
    /// Publish an event.
    Publish(CircleEvent),
    /// Record a default for `member` with the reputation registry.
    ReportDefault { member: AccountId },
    /// Record a clean completion for `member` with the reputation registry.
    ReportCompletion { member: AccountId },
}

/// Net token flow into escrow caused by one effect.
pub open spec fn effect_flow(e: Effect) -> int {
    match e {
        Effect::Collect { amount, .. } => amount as int,
        Effect::Pay { amount, .. } => -(amount as int),
        _ => 0int,
    }
}

/// Net token flow into escrow caused by a list of effects.
pub open spec fn net_inflow(effects: Seq<Effect>) -> int
    decreases effects.len(),
{
    if effects.len() == 0 {
        0
    } else {
        net_inflow(effects.drop_last()) + effect_flow(effects.last())
    }
}

pub proof fn lemma_net_inflow_single(e: Effect)
    ensures
        net_inflow(seq![e]) == effect_flow(e),
{
    let s = seq![e];
    assert(s.drop_last() =~= Seq::<Effect>::empty());
    assert(net_inflow(s.drop_last()) == 0);
    assert(s.last() == e);
}

pub proof fn lemma_net_inflow_concat(a: Seq<Effect>, b: Seq<Effect>)
    ensures
        net_inflow(a + b) == net_inflow(a) + net_inflow(b),
    decreases b.len(),
{
    if b.len() == 0 {
        assert(a + b =~= a);
    } else {
        lemma_net_inflow_concat(a, b.drop_last());
        assert((a + b).drop_last() =~= a + b.drop_last());
    }
}

} // verus!
