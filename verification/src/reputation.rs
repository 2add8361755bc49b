//! The reputation registry: a permanent cross-circle tally per address,
//! written only by allow-listed reporters.
use std::collections::HashMap;
use vstd::prelude::*;

use crate::types::AccountId;

verus! {

broadcast use vstd::std_specs::hash::group_hash_axioms;

/// How an address's memberships have ended.
#[derive(Clone, Copy, Debug, PartialEq, Eq, Structural)]
pub struct Reputation {
    /// Circles finished cleanly (deposit intact through completion).
    pub completed: u32,
    /// Circles defaulted on (deposit could not cover a missed contribution).
    pub defaulted: u32,
}

/// Errors of the reputation registry; `code` gives the stable number.
#[derive(Clone, Copy, Debug, PartialEq, Eq, Structural)]
pub enum ReputationError {
    NotInitialized,
    AlreadyInitialized,
    NotAdmin,
    NotReporter,
}

pub open spec fn reputation_error_code(e: ReputationError) -> u32 {
    match e {
        ReputationError::NotInitialized => 1,
        ReputationError::AlreadyInitialized => 2,
        ReputationError::NotAdmin => 3,
        ReputationError::NotReporter => 4,
    }
}

impl ReputationError {
    /// The stable error number.
    pub fn code(&self) -> (c: u32)
        ensures
            c == reputation_error_code(*self),
    {
        match self {
            ReputationError::NotInitialized => 1,
            ReputationError::AlreadyInitialized => 2,
            ReputationError::NotAdmin => 3,
            ReputationError::NotReporter => 4,
        }
    }
}

/// The events the registry publishes.
#[derive(Clone, Copy, Debug, PartialEq, Eq, Structural)]
pub enum ReputationEvent {
    Completion { member: AccountId },
    Defaulted { member: AccountId },
}

/// The whole state of the registry: the admin, the reporter allow-list and
/// every recorded history, keyed by the address handle.
pub struct ReputationContract {
    pub admin: Option<AccountId>,
    pub reporters: HashMap<u64, bool>,
    pub records: HashMap<u64, Reputation>,
}

#[verifier::ext_equal]
pub struct ReputationModel {
    pub admin: Option<AccountId>,
    pub reporters: Map<u64, bool>,
    pub records: Map<u64, Reputation>,
}

impl View for ReputationContract {
    type V = ReputationModel;

    open spec fn view(&self) -> ReputationModel {
        ReputationModel { admin: self.admin, reporters: self.reporters@, records: self.records@ }
    }
}

pub open spec fn zero_reputation() -> Reputation {
    Reputation { completed: 0, defaulted: 0 }
}

/// `reporter` is on the allow-list.
pub open spec fn is_allowed(m: ReputationModel, reporter: AccountId) -> bool {
    m.reporters.contains_key(reporter.0) && m.reporters[reporter.0]
}

/// The history of `member`; an address never reported reads as zeroes.
pub open spec fn reputation_of(m: ReputationModel, member: AccountId) -> Reputation {
    if m.records.contains_key(member.0) {
        m.records[member.0]
    } else {
        zero_reputation()
    }
}

pub open spec fn with_record(m: ReputationModel, member: AccountId, r: Reputation) -> ReputationModel {
    ReputationModel { records: m.records.insert(member.0, r), ..m }
}

/// The registry after a completion is reported for `member`.
pub open spec fn completion_recorded(m: ReputationModel, member: AccountId) -> ReputationModel {
    let r = reputation_of(m, member);
    with_record(m, member, Reputation { completed: (r.completed + 1) as u32, ..r })
}

/// The registry after a default is reported for `member`.
pub open spec fn default_recorded(m: ReputationModel, member: AccountId) -> ReputationModel {
    let r = reputation_of(m, member);
    with_record(m, member, Reputation { defaulted: (r.defaulted + 1) as u32, ..r })
}

impl ReputationContract {
    /// A freshly deployed registry: no admin, no reporters, no history.
    pub fn new() -> (c: ReputationContract)
        ensures
            c@.admin is None,
            c@.reporters == Map::<u64, bool>::empty(),
            c@.records == Map::<u64, Reputation>::empty(),
    {
        ReputationContract { admin: None, reporters: HashMap::new(), records: HashMap::new() }
    }

    /// Callable once: sets the admin who manages the reporter allow-list.
    pub fn initialize(&mut self, admin: AccountId) -> (r: Result<(), ReputationError>)
        ensures
            old(self)@.admin is Some ==> r == Err::<(), ReputationError>(
                ReputationError::AlreadyInitialized,
            ) && final(self)@ == old(self)@,
            old(self)@.admin is None ==> r is Ok && final(self)@ == (ReputationModel {
                admin: Some(admin),
                ..old(self)@
            }),
    {
        if self.admin.is_some() {
            return Err(ReputationError::AlreadyInitialized);
        }
        self.admin = Some(admin);
        Ok(())
    }

    /// The admin allows or revokes `reporter`.
    pub fn set_reporter(&mut self, admin: AccountId, reporter: AccountId, allowed: bool) -> (r: Result<
        (),
        ReputationError,
    >)
        ensures
            old(self)@.admin is None ==> r == Err::<(), ReputationError>(
                ReputationError::NotInitialized,
            ) && final(self)@ == old(self)@,
            old(self)@.admin is Some && old(self)@.admin != Some(admin) ==> r == Err::<
                (),
                ReputationError,
            >(ReputationError::NotAdmin) && final(self)@ == old(self)@,
            old(self)@.admin == Some(admin) ==> r is Ok && final(self)@ == (ReputationModel {
                reporters: old(self)@.reporters.insert(reporter.0, allowed),
                ..old(self)@
            }),
    {
        match self.admin {
            None => Err(ReputationError::NotInitialized),
            Some(stored) => {
                if stored != admin {
                    return Err(ReputationError::NotAdmin);
                }
                self.reporters.insert(reporter.0, allowed);
                Ok(())
            },
        }
    }

    /// Whether `reporter` is on the allow-list.
    pub fn is_reporter(&self, reporter: AccountId) -> (b: bool)
        ensures
            b == is_allowed(self@, reporter),
    {
        match self.reporters.get(&reporter.0) {
            Some(allowed) => *allowed,
            None => false,
        }
    }

    /// The history of `member`: zeroes if never reported.
    pub fn get_reputation(&self, member: AccountId) -> (r: Reputation)
        ensures
            r == reputation_of(self@, member),
    {
        match self.records.get(&member.0) {
            Some(rep) => *rep,
            None => Reputation { completed: 0, defaulted: 0 },
        }
    }

    /// An allow-listed reporter records a clean completion for `member`.
    pub fn report_completion(&mut self, reporter: AccountId, member: AccountId) -> (r: Result<
        ReputationEvent,
        ReputationError,
    >)
        requires
            is_allowed(old(self)@, reporter) ==> reputation_of(old(self)@, member).completed
                < u32::MAX,
        ensures
            !is_allowed(old(self)@, reporter) ==> r == Err::<ReputationEvent, ReputationError>(
                ReputationError::NotReporter,
            ) && final(self)@ == old(self)@,
            is_allowed(old(self)@, reporter) ==> r == Ok::<ReputationEvent, ReputationError>(
                ReputationEvent::Completion { member },
            ) && final(self)@ == completion_recorded(old(self)@, member),
    {
        if !self.is_reporter(reporter) {
            return Err(ReputationError::NotReporter);
        }
        let mut rep = self.get_reputation(member);
        rep.completed = rep.completed + 1;
        self.records.insert(member.0, rep);
        assert(self@ =~= completion_recorded(old(self)@, member));
        Ok(ReputationEvent::Completion { member })
    }

    /// An allow-listed reporter records a default for `member`.
    pub fn report_default(&mut self, reporter: AccountId, member: AccountId) -> (r: Result<
        ReputationEvent,
        ReputationError,
    >)
        requires
            is_allowed(old(self)@, reporter) ==> reputation_of(old(self)@, member).defaulted
                < u32::MAX,
        ensures
            !is_allowed(old(self)@, reporter) ==> r == Err::<ReputationEvent, ReputationError>(
                ReputationError::NotReporter,
            ) && final(self)@ == old(self)@,
            is_allowed(old(self)@, reporter) ==> r == Ok::<ReputationEvent, ReputationError>(
                ReputationEvent::Defaulted { member },
            ) && final(self)@ == default_recorded(old(self)@, member),
    {
        if !self.is_reporter(reporter) {
            return Err(ReputationError::NotReporter);
        }
        let mut rep = self.get_reputation(member);
        rep.defaulted = rep.defaulted + 1;
        self.records.insert(member.0, rep);
        assert(self@ =~= default_recorded(old(self)@, member));
        Ok(ReputationEvent::Defaulted { member })
    }
}

} // verus!
