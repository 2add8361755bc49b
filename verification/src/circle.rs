//! The circle contract: the configuration, the circle counter, and every
//! circle ever created, addressed by id.
use vstd::prelude::*;

use crate::record::{
    cancel_outcome, contribute_outcome, deadline_of, has_member, held, join_outcome, leave_outcome,
    matches_outcome, member_ids, open_effects, opened, position_of, valid_params, well_formed,
    CircleRecord, Outcome, RecordModel,
};
use crate::settle::settle_outcome;
use crate::types::{
    AccountId, Circle, Effect, Error, GlobalConfig, MemberState,
};

verus! {

/// The whole state of one deployed circle contract. Circle `id` is
/// `circles[id]`; `count` is the next id `create_circle` hands out.
pub struct CircleContract {
    pub config: Option<GlobalConfig>,
    pub count: u32,
    pub circles: Vec<CircleRecord>,
}

#[verifier::ext_equal]
pub struct ContractModel {
    pub config: Option<GlobalConfig>,
    pub count: u32,
    pub circles: Seq<RecordModel>,
}

impl View for CircleContract {
    type V = ContractModel;

    open spec fn view(&self) -> ContractModel {
        ContractModel {
            config: self.config,
            count: self.count,
            circles: self.circles@.map_values(|r: CircleRecord| r@),
        }
    }
}

/// The ids handed out are exactly `0..count`, each naming its circle;
/// nothing exists before `initialize`; every circle is well-formed.
pub open spec fn contract_wf(m: ContractModel) -> bool {
    &&& m.count == m.circles.len()
    &&& m.config is None ==> m.count == 0
    &&& forall|i: int| 0 <= i < m.circles.len() ==> well_formed(#[trigger] m.circles[i])
}

/// The contract after `o` happened to circle `id`, with the call's result.
pub open spec fn apply_outcome(m: ContractModel, id: u32, o: Outcome) -> ContractModel {
    ContractModel { circles: m.circles.update(id as int, o.record), ..m }
}

/// An executed call on circle `id` agrees with what `outcome` says of that
/// circle; a missing circle fails with `NotFound` and changes nothing.
pub open spec fn contract_step(
    old_m: ContractModel,
    new_m: ContractModel,
    r: Result<Vec<Effect>, Error>,
    id: u32,
    o: Outcome,
) -> bool {
    if id >= old_m.circles.len() {
        new_m == old_m && r == Err::<Vec<Effect>, Error>(Error::NotFound)
    } else {
        &&& new_m == apply_outcome(old_m, id, o)
        &&& matches_outcome(new_m.circles[id as int], r, o)
    }
}

impl CircleContract {
    /// A freshly deployed contract: not yet initialized, no circles.
    pub fn new() -> (c: CircleContract)
        ensures
            c@.config is None,
            c@.count == 0,
            c@.circles.len() == 0,
            contract_wf(c@),
    {
        CircleContract { config: None, count: 0, circles: Vec::new() }
    }

    /// Callable once: stores the admin and the reputation registry. Circles
    /// can be created only afterwards, so the counter starts at 0 here.
    pub fn initialize(&mut self, admin: AccountId, reputation: AccountId) -> (r: Result<(), Error>)
        ensures
            old(self)@.config is Some ==> r == Err::<(), Error>(Error::AlreadyInitialized)
                && final(self)@ == old(self)@,
            old(self)@.config is None ==> r is Ok && final(self)@ == (ContractModel {
                config: Some(GlobalConfig { admin, reputation }),
                count: 0,
                ..old(self)@
            }),
            contract_wf(old(self)@) ==> contract_wf(final(self)@),
    {
        if self.config.is_some() {
            return Err(Error::AlreadyInitialized);
        }
        self.config = Some(GlobalConfig { admin, reputation });
        self.count = 0;
        assert(self@ =~= (ContractModel {
            config: Some(GlobalConfig { admin, reputation }),
            count: 0,
            ..old(self)@
        }));
        Ok(())
    }

    /// Opens a circle under the next id with the creator as member 0 and the
    /// creator's deposit escrowed; returns the id. Refused before
    /// `initialize`.
    pub fn create_circle(
        &mut self,
        creator: AccountId,
        token: AccountId,
        contribution: i128,
        deposit: i128,
        size: u32,
        period_secs: u64,
    ) -> (r: Result<(u32, Vec<Effect>), Error>)
        requires
            contract_wf(old(self)@),
            old(self)@.config is Some && valid_params(contribution, deposit, size, period_secs)
                ==> old(self).count < u32::MAX,
        ensures
            old(self)@.config is None ==> r == Err::<(u32, Vec<Effect>), Error>(
                Error::NotInitialized,
            ) && final(self)@ == old(self)@,
            old(self)@.config is Some && !valid_params(contribution, deposit, size, period_secs)
                ==> r == Err::<(u32, Vec<Effect>), Error>(Error::BadParams) && final(self)@ == old(
                self,
            )@,
            old(self)@.config is Some && valid_params(contribution, deposit, size, period_secs)
                ==> match r {
                Ok((id, effects)) => {
                    &&& id == old(self).count
                    &&& effects@ == open_effects(id, creator, deposit)
                    &&& final(self)@ == (ContractModel {
                        count: (id + 1) as u32,
                        circles: old(self)@.circles.push(
                            opened(creator, token, contribution, deposit, size, period_secs),
                        ),
                        ..old(self)@
                    })
                    &&& final(self)@.circles[id as int].circle.creator == creator
                    &&& final(self)@.circles[id as int].circle.token == token
                    &&& final(self)@.circles[id as int].circle.contribution == contribution
                    &&& final(self)@.circles[id as int].circle.deposit == deposit
                    &&& final(self)@.circles[id as int].circle.size == size
                    &&& final(self)@.circles[id as int].circle.period_secs == period_secs
                    &&& final(self)@.circles[id as int].members.len() == 1
                    &&& final(self)@.circles[id as int].members[0].member == creator
                },
                Err(_) => false,
            },
            contract_wf(final(self)@),
    {
        let id = self.count;
        let initialized = self.config.is_some();
        match CircleRecord::open(id, initialized, creator, token, contribution, deposit, size, period_secs) {
            Err(e) => Err(e),
            Ok((rec, effects)) => {
                let ghost old_m = self@;
                let ghost rec_m = rec@;
                self.circles.push(rec);
                self.count = id + 1;
                let ghost expected = ContractModel {
                    count: (id + 1) as u32,
                    circles: old_m.circles.push(rec_m),
                    ..old_m
                };
                assert(self@.circles =~= expected.circles);
                assert(self@ =~= expected);
                proof {
                    assert forall|i: int| 0 <= i < self@.circles.len() implies well_formed(
                        #[trigger] self@.circles[i],
                    ) by {
                        if i != id {
                            assert(self@.circles[i] == old_m.circles[i]);
                        }
                    }
                }
                Ok((id, effects))
            },
        }
    }

    /// Joins circle `circle_id` at ledger time `now`.
    pub fn join(&mut self, circle_id: u32, member: AccountId, now: u64) -> (r: Result<Vec<Effect>, Error>)
        ensures
            contract_step(
                old(self)@,
                final(self)@,
                r,
                circle_id,
                join_outcome(old(self)@.circles[circle_id as int], circle_id, member, now),
            ),
            contract_wf(old(self)@) ==> contract_wf(final(self)@),
    {
        if (circle_id as usize) >= self.circles.len() {
            return Err(Error::NotFound);
        }
        let ghost old_m = self@;
        let r = self.circles[circle_id as usize].join(circle_id, member, now);
        proof {
            self.lemma_one_changed(old_m, circle_id);
        }
        r
    }

    /// A non-creator leaves an Open circle with a full refund.
    pub fn leave(&mut self, circle_id: u32, member: AccountId) -> (r: Result<Vec<Effect>, Error>)
        ensures
            contract_step(
                old(self)@,
                final(self)@,
                r,
                circle_id,
                leave_outcome(old(self)@.circles[circle_id as int], member),
            ),
            contract_wf(old(self)@) ==> contract_wf(final(self)@),
    {
        if (circle_id as usize) >= self.circles.len() {
            return Err(Error::NotFound);
        }
        let ghost old_m = self@;
        let r = self.circles[circle_id as usize].leave(member);
        proof {
            self.lemma_one_changed(old_m, circle_id);
        }
        r
    }

    /// The creator cancels an Open circle, refunding every member.
    pub fn cancel(&mut self, circle_id: u32, creator: AccountId) -> (r: Result<Vec<Effect>, Error>)
        ensures
            contract_step(
                old(self)@,
                final(self)@,
                r,
                circle_id,
                cancel_outcome(old(self)@.circles[circle_id as int], circle_id, creator),
            ),
            contract_wf(old(self)@) ==> contract_wf(final(self)@),
    {
        if (circle_id as usize) >= self.circles.len() {
            return Err(Error::NotFound);
        }
        let ghost old_m = self@;
        let r = self.circles[circle_id as usize].cancel(circle_id, creator);
        proof {
            self.lemma_one_changed(old_m, circle_id);
        }
        r
    }

    /// A member pays this cycle's contribution.
    pub fn contribute(&mut self, circle_id: u32, member: AccountId) -> (r: Result<Vec<Effect>, Error>)
        ensures
            contract_step(
                old(self)@,
                final(self)@,
                r,
                circle_id,
                contribute_outcome(old(self)@.circles[circle_id as int], circle_id, member),
            ),
            contract_wf(old(self)@) ==> contract_wf(final(self)@),
    {
        if (circle_id as usize) >= self.circles.len() {
            return Err(Error::NotFound);
        }
        let ghost old_m = self@;
        let r = self.circles[circle_id as usize].contribute(circle_id, member);
        proof {
            self.lemma_one_changed(old_m, circle_id);
        }
        r
    }

    /// Permissionless: settles circle `circle_id` at ledger time `now`.
    pub fn settle_cycle(&mut self, circle_id: u32, now: u64) -> (r: Result<Vec<Effect>, Error>)
        requires
            contract_wf(old(self)@),
            circle_id < old(self)@.circles.len() ==> held(old(self)@.circles[circle_id as int])
                <= i128::MAX,
            circle_id < old(self)@.circles.len() && old(self)@.circles[circle_id as int].circle.status
                is Active ==> deadline_of(old(self)@.circles[circle_id as int].circle) <= u64::MAX,
        ensures
            contract_step(
                old(self)@,
                final(self)@,
                r,
                circle_id,
                settle_outcome(
                    old(self)@.circles[circle_id as int],
                    circle_id,
                    now,
                    old(self)@.config is Some,
                ),
            ),
            contract_wf(final(self)@),
    {
        if (circle_id as usize) >= self.circles.len() {
            return Err(Error::NotFound);
        }
        let ghost old_m = self@;
        let initialized = self.config.is_some();
        proof {
            assert(old_m.circles[circle_id as int] == self.circles@[circle_id as int]@);
        }
        let r = self.circles[circle_id as usize].settle_cycle(circle_id, now, initialized);
        proof {
            self.lemma_one_changed(old_m, circle_id);
        }
        r
    }

    proof fn lemma_one_changed(&self, old_m: ContractModel, id: u32)
        requires
            id < old_m.circles.len(),
            self.circles@.len() == old_m.circles.len(),
            self.config == old_m.config,
            self.count == old_m.count,
            forall|j: int|
                0 <= j < old_m.circles.len() && j != id ==> (#[trigger] self.circles@[j])@
                    == old_m.circles[j],
            well_formed(old_m.circles[id as int]) ==> well_formed(self.circles@[id as int]@),
        ensures
            self@ == (ContractModel {
                circles: old_m.circles.update(id as int, self.circles@[id as int]@),
                ..old_m
            }),
            contract_wf(old_m) ==> contract_wf(self@),
    {
        assert(self@.circles =~= old_m.circles.update(id as int, self.circles@[id as int]@));
    }

    /// The record of circle `circle_id`.
    pub fn get_circle(&self, circle_id: u32) -> (r: Result<Circle, Error>)
        ensures
            match r {
                Ok(c) => circle_id < self@.circles.len() && c == self@.circles[circle_id as int].circle,
                Err(e) => circle_id >= self@.circles.len() && e == Error::NotFound,
            },
    {
        if (circle_id as usize) >= self.circles.len() {
            return Err(Error::NotFound);
        }
        Ok(self.circles[circle_id as usize].get_circle())
    }

    /// Members of circle `circle_id` in join order (= payout order).
    pub fn get_members(&self, circle_id: u32) -> (r: Result<Vec<AccountId>, Error>)
        ensures
            match r {
                Ok(v) => {
                    &&& circle_id < self@.circles.len()
                    &&& v@ == member_ids(self@.circles[circle_id as int].members)
                    &&& v@.len() == self@.circles[circle_id as int].members.len()
                    &&& forall|i: int|
                        0 <= i < v@.len() ==> v@[i] == (
                        #[trigger] self@.circles[circle_id as int].members[i]).member
                },
                Err(e) => circle_id >= self@.circles.len() && e == Error::NotFound,
            },
    {
        if (circle_id as usize) >= self.circles.len() {
            return Err(Error::NotFound);
        }
        Ok(self.circles[circle_id as usize].get_members())
    }

    /// The standing of `member` in circle `circle_id`; `NotMember` when
    /// there is no such standing (also for an unknown circle).
    pub fn get_member(&self, circle_id: u32, member: AccountId) -> (r: Result<MemberState, Error>)
        ensures
            match r {
                Ok(st) => {
                    let s = self@.circles[circle_id as int].members;
                    &&& circle_id < self@.circles.len()
                    &&& has_member(s, member)
                    &&& st == s[position_of(s, member)].state
                },
                Err(e) => e == Error::NotMember && (circle_id >= self@.circles.len() || !has_member(
                    self@.circles[circle_id as int].members,
                    member,
                )),
            },
    {
        if (circle_id as usize) >= self.circles.len() {
            return Err(Error::NotMember);
        }
        self.circles[circle_id as usize].get_member(member)
    }

    /// Unix seconds by which the current cycle of circle `circle_id` must
    /// settle.
    pub fn cycle_deadline(&self, circle_id: u32) -> (r: Result<u64, Error>)
        requires
            circle_id < self@.circles.len() ==> deadline_of(self@.circles[circle_id as int].circle)
                <= u64::MAX,
        ensures
            match r {
                Ok(d) => {
                    &&& circle_id < self@.circles.len()
                    &&& d == deadline_of(self@.circles[circle_id as int].circle)
                    &&& d == self@.circles[circle_id as int].circle.started_at + (
                    self@.circles[circle_id as int].circle.current_cycle + 1)
                        * self@.circles[circle_id as int].circle.period_secs
                },
                Err(e) => circle_id >= self@.circles.len() && e == Error::NotFound,
            },
    {
        if (circle_id as usize) >= self.circles.len() {
            return Err(Error::NotFound);
        }
        Ok(self.circles[circle_id as usize].cycle_deadline())
    }

    /// How many circles `create_circle` has handed out since `initialize`.
    pub fn total_circles(&self) -> (n: u32)
        ensures
            n == self@.count,
    {
        self.count
    }
}

} // verus!
