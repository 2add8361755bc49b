//! Settlement of one cycle: collect the pot (slashing and defaulting members
//! who missed), pay the first eligible member in join order, then advance
//! the cycle or complete the circle.
use vstd::prelude::*;

use crate::record::{
    count_received, deadline_of, entry_ok, fails, held, held_prefix, lemma_count_received_agree,
    lemma_count_received_bounds, lemma_held_prefix_nonneg, matches_outcome, pay_if_positive,
    succeeds, well_formed, CircleRecord, Outcome, RecordModel,
};
use crate::types::{
    net_inflow, AccountId, Circle, CircleEvent, CircleStatus, Effect, Error, MemberEntry,
    MemberState,
};

verus! {

// ---- When a cycle is due ----------------------------------------------------

/// Every member who has not defaulted has paid this cycle.
pub open spec fn all_active_paid(s: Seq<MemberEntry>) -> bool {
    forall|i: int| 0 <= i < s.len() ==> (!(#[trigger] s[i]).state.defaulted ==> s[i].paid)
}

// ---- Pass 1: collect the pot ------------------------------------------------

/// What a member who missed the cycle loses from the bond: the contribution,
/// or the whole bond if it is smaller.
pub open spec fn slash_of(e: MemberEntry, c: i128) -> i128 {
    if e.state.deposit_remaining < c {
        e.state.deposit_remaining
    } else {
        c
    }
}

/// A slot after collection: a member who missed is slashed, and defaulted
/// when the slash falls short of the contribution.
pub open spec fn collect_entry(e: MemberEntry, c: i128) -> MemberEntry {
    if e.state.defaulted || e.paid {
        e
    } else {
        let s = slash_of(e, c);
        MemberEntry {
            state: MemberState {
                deposit_remaining: if s > 0 {
                    (e.state.deposit_remaining - s) as i128
                } else {
                    e.state.deposit_remaining
                },
                received: e.state.received,
                defaulted: s < c,
            },
            ..e
        }
    }
}

/// What one slot adds to the pot.
pub open spec fn pot_part(e: MemberEntry, c: i128) -> int {
    if e.state.defaulted {
        0
    } else if e.paid {
        c as int
    } else if slash_of(e, c) > 0 {
        slash_of(e, c) as int
    } else {
        0
    }
}

pub open spec fn pot_prefix(s: Seq<MemberEntry>, c: i128, k: nat) -> int
    decreases k,
{
    if k == 0 {
        0
    } else {
        pot_prefix(s, c, (k - 1) as nat) + pot_part(s[k - 1], c)
    }
}

/// The effects of collecting from one slot: a slash event, and on default a
/// default event and a report to the reputation registry.
pub open spec fn collect_effects_of(e: MemberEntry, id: u32, c: i128) -> Seq<Effect> {
    if e.state.defaulted || e.paid {
        Seq::empty()
    } else {
        let s = slash_of(e, c);
        (if s > 0 {
            seq![Effect::Publish(CircleEvent::Slash { id, member: e.member, amount: s })]
        } else {
            Seq::empty()
        }) + if s < c {
            seq![
                Effect::Publish(CircleEvent::Defaulted { id, member: e.member }),
                Effect::ReportDefault { member: e.member },
            ]
        } else {
            Seq::empty()
        }
    }
}

pub open spec fn collect_effects_prefix(s: Seq<MemberEntry>, id: u32, c: i128, k: nat) -> Seq<
    Effect,
>
    decreases k,
{
    if k == 0 {
        Seq::empty()
    } else {
        collect_effects_prefix(s, id, c, (k - 1) as nat) + collect_effects_of(s[k - 1], id, c)
    }
}

/// The members below `k` who paid this cycle, in join order.
pub open spec fn payers_prefix(s: Seq<MemberEntry>, k: nat) -> Seq<AccountId>
    decreases k,
{
    if k == 0 {
        Seq::empty()
    } else {
        let rest = payers_prefix(s, (k - 1) as nat);
        if !s[k - 1].state.defaulted && s[k - 1].paid {
            rest.push(s[k - 1].member)
        } else {
            rest
        }
    }
}

pub open spec fn collected(s: Seq<MemberEntry>, c: i128) -> Seq<MemberEntry> {
    s.map_values(|e: MemberEntry| collect_entry(e, c))
}

// ---- Pass 2: pay the recipient ----------------------------------------------

/// Active and still owed a payout.
pub open spec fn is_eligible(e: MemberEntry) -> bool {
    !e.state.received && !e.state.defaulted
}

pub open spec fn is_first_eligible(s: Seq<MemberEntry>, k: int) -> bool {
    &&& 0 <= k < s.len()
    &&& is_eligible(s[k])
    &&& forall|j: int| 0 <= j < k ==> !is_eligible(#[trigger] s[j])
}

/// The first eligible slot in join order, or `s.len()` when nobody is.
pub open spec fn recipient_index(s: Seq<MemberEntry>) -> int {
    if exists|k: int| is_first_eligible(s, k) {
        choose|k: int| is_first_eligible(s, k)
    } else {
        s.len() as int
    }
}

pub open spec fn mark_received(e: MemberEntry) -> MemberEntry {
    MemberEntry { state: MemberState { received: true, ..e.state }, ..e }
}

pub open spec fn after_payout(s1: Seq<MemberEntry>) -> Seq<MemberEntry> {
    let k = recipient_index(s1);
    if k < s1.len() {
        s1.update(k, mark_received(s1[k]))
    } else {
        s1
    }
}

/// Refunds to payers when nobody is left to pay: payer `j < k` gets `base`,
/// the first also `rem`.
pub open spec fn refund_prefix(ps: Seq<AccountId>, base: int, rem: int, k: nat) -> Seq<Effect>
    decreases k,
{
    if k == 0 {
        Seq::empty()
    } else {
        let amount = base + if k - 1 == 0 {
            rem
        } else {
            0int
        };
        refund_prefix(ps, base, rem, (k - 1) as nat) + if amount > 0 {
            seq![Effect::Pay { to: ps[k - 1], amount: amount as i128 }]
        } else {
            Seq::empty()
        }
    }
}

/// Each payer gets the contribution back plus an equal share of the
/// slashes; the rounding remainder goes to the first payer.
pub open spec fn payer_refunds(ps: Seq<AccountId>, c: i128, pot: int) -> Seq<Effect> {
    let n = ps.len() as int;
    if n == 0 {
        Seq::empty()
    } else {
        let total = pot - c * n;
        let share = total / n;
        let rem = total - share * n;
        refund_prefix(ps, c + share, rem, n as nat)
    }
}

/// How the pot leaves escrow. It goes in full to the first eligible member
/// in join order. When nobody is left to pay, the payers get their
/// contributions back with equal shares of the slashes. When nobody is left
/// to pay and nobody paid either, no transfer is made: the slashes taken
/// this cycle stay in escrow (see `retained`), since the only members left
/// to give them to are members whose bonds are consumed by default or who
/// have already received their payout in full.
pub open spec fn payout_effects(
    s1: Seq<MemberEntry>,
    payers: Seq<AccountId>,
    id: u32,
    c: i128,
    pot: int,
    cycle: u32,
) -> Seq<Effect> {
    let k = recipient_index(s1);
    if k < s1.len() {
        pay_if_positive(s1[k].member, pot as i128) + seq![
            Effect::Publish(
                CircleEvent::Payout { id, recipient: s1[k].member, amount: pot as i128, cycle },
            ),
        ]
    } else {
        payer_refunds(payers, c, pot)
    }
}

// ---- Pass 3: advance or complete --------------------------------------------

/// Nobody active is still owed a payout.
pub open spec fn all_settled(s: Seq<MemberEntry>) -> bool {
    forall|i: int| 0 <= i < s.len() ==> !is_eligible(#[trigger] s[i])
}

/// A slot at completion: an active member's bond has been refunded.
pub open spec fn closing_entry(e: MemberEntry) -> MemberEntry {
    if !e.state.defaulted && e.state.deposit_remaining > 0 {
        MemberEntry { state: MemberState { deposit_remaining: 0, ..e.state }, ..e }
    } else {
        e
    }
}

pub open spec fn closing_effects_of(e: MemberEntry) -> Seq<Effect> {
    if !e.state.defaulted {
        pay_if_positive(e.member, e.state.deposit_remaining) + seq![
            Effect::ReportCompletion { member: e.member },
        ]
    } else {
        Seq::empty()
    }
}

pub open spec fn closing_effects_prefix(s: Seq<MemberEntry>, k: nat) -> Seq<Effect>
    decreases k,
{
    if k == 0 {
        Seq::empty()
    } else {
        closing_effects_prefix(s, (k - 1) as nat) + closing_effects_of(s[k - 1])
    }
}

/// The next cycle starts with nobody having paid.
pub open spec fn clear_paid(e: MemberEntry) -> MemberEntry {
    MemberEntry { paid: false, ..e }
}

/// What `settle_cycle` does to a circle at ledger time `now`.
pub open spec fn settle_outcome(m: RecordModel, id: u32, now: u64, initialized: bool) -> Outcome {
    if m.circle.status != CircleStatus::Active {
        fails(m, Error::BadStatus)
    } else if !all_active_paid(m.members) && now <= deadline_of(m.circle) {
        fails(m, Error::NotDue)
    } else if !initialized {
        fails(m, Error::NotInitialized)
    } else {
        let c = m.circle.contribution;
        let s = m.members;
        let n = s.len();
        let pot = pot_prefix(s, c, n);
        let s1 = collected(s, c);
        let s2 = after_payout(s1);
        let done = all_settled(s2);
        let s3 = if done {
            s2.map_values(|e: MemberEntry| clear_paid(closing_entry(e)))
        } else {
            s2.map_values(|e: MemberEntry| clear_paid(e))
        };
        let circle = if done {
            Circle { status: CircleStatus::Completed, ..m.circle }
        } else {
            Circle { current_cycle: (m.circle.current_cycle + 1) as u32, ..m.circle }
        };
        let effects = collect_effects_prefix(s, id, c, n) + payout_effects(
            s1,
            payers_prefix(s, n),
            id,
            c,
            pot,
            m.circle.current_cycle,
        ) + if done {
            closing_effects_prefix(s2, n) + seq![Effect::Publish(CircleEvent::Complete { id })]
        } else {
            Seq::empty()
        };
        succeeds(RecordModel { circle, members: s3 }, effects)
    }
}

/// The slashes a settlement keeps in escrow without assigning them: those
/// of a settlement that leaves nobody owed a payout when nobody paid this
/// cycle. Everywhere else a settlement pays out everything it takes.
pub open spec fn retained(m: RecordModel) -> int {
    let c = m.circle.contribution;
    let s = m.members;
    let s1 = collected(s, c);
    if recipient_index(s1) >= s1.len() && payers_prefix(s, s.len()).len() == 0 {
        pot_prefix(s, c, s.len())
    } else {
        0
    }
}

// ---- Lemmas -----------------------------------------------------------------

pub proof fn lemma_pot_bounds(s: Seq<MemberEntry>, c: i128, k: nat)
    requires
        c > 0,
        k <= s.len(),
        forall|i: int| 0 <= i < s.len() ==> (#[trigger] s[i]).state.deposit_remaining >= 0,
    ensures
        0 <= pot_prefix(s, c, k) <= held_prefix(s, c, k),
        pot_prefix(s, c, k) >= c * payers_prefix(s, k).len(),
    decreases k,
{
    if k > 0 {
        lemma_pot_bounds(s, c, (k - 1) as nat);
        let n1 = payers_prefix(s, (k - 1) as nat).len();
        assert(c * (n1 + 1) == c * n1 + c) by (nonlinear_arith);
    }
}

proof fn lemma_first_eligible_exists(s: Seq<MemberEntry>, i: int)
    requires
        0 <= i < s.len(),
        is_eligible(s[i]),
    ensures
        exists|k: int| is_first_eligible(s, k),
    decreases i,
{
    if exists|j: int| 0 <= j < i && is_eligible(#[trigger] s[j]) {
        let j = choose|j: int| 0 <= j < i && is_eligible(#[trigger] s[j]);
        lemma_first_eligible_exists(s, j);
    } else {
        assert(is_first_eligible(s, i));
    }
}

pub proof fn lemma_recipient_index(s: Seq<MemberEntry>)
    ensures
        0 <= recipient_index(s) <= s.len(),
        recipient_index(s) < s.len() ==> is_first_eligible(s, recipient_index(s)),
        recipient_index(s) == s.len() ==> forall|j: int| 0 <= j < s.len() ==> !is_eligible(#[trigger] s[j]),
        forall|k: int| is_first_eligible(s, k) ==> recipient_index(s) == k,
{
    if exists|j: int| 0 <= j < s.len() && is_eligible(#[trigger] s[j]) {
        let j = choose|j: int| 0 <= j < s.len() && is_eligible(#[trigger] s[j]);
        lemma_first_eligible_exists(s, j);
    }
    assert forall|k: int| is_first_eligible(s, k) implies recipient_index(s) == k by {
        let r = recipient_index(s);
        assert(is_first_eligible(s, r));
        if r < k {
            assert(!is_eligible(s[r]));
        } else if k < r {
            assert(!is_eligible(s[k]));
        }
    }
}

/// Every slot of the join order keeps its slot invariant through the
/// collection, payout and closing passes.
pub proof fn lemma_settle_entries(m: RecordModel)
    requires
        well_formed(m),
    ensures
        ({
            let c = m.circle.contribution;
            let s1 = collected(m.members, c);
            let s2 = after_payout(s1);
            &&& s1.len() == m.members.len()
            &&& s2.len() == m.members.len()
            &&& forall|i: int| 0 <= i < s1.len() ==> entry_ok(#[trigger] s1[i], m.circle)
            &&& forall|i: int| 0 <= i < s2.len() ==> entry_ok(#[trigger] s2[i], m.circle)
            &&& forall|i: int| 0 <= i < s2.len() ==> (#[trigger] s2[i]).member == m.members[i].member
            &&& forall|i: int| 0 <= i < s1.len() ==> (#[trigger] s1[i]).member == m.members[i].member
            &&& forall|i: int|
                0 <= i < s1.len() ==> (#[trigger] s1[i]).state.received == m.members[i].state.received
        }),
{
    let c = m.circle.contribution;
    let s = m.members;
    let s1 = collected(s, c);
    let s2 = after_payout(s1);
    assert forall|i: int| 0 <= i < s1.len() implies entry_ok(#[trigger] s1[i], m.circle) by {
        assert(entry_ok(s[i], m.circle));
    }
    lemma_recipient_index(s1);
    assert forall|i: int| 0 <= i < s2.len() implies entry_ok(#[trigger] s2[i], m.circle) by {
        assert(entry_ok(s1[i], m.circle));
    }
}

/// A settlement keeps the circle well-formed.
pub proof fn lemma_settle_preserves_wf(m: RecordModel, id: u32, now: u64, initialized: bool)
    requires
        well_formed(m),
        settle_outcome(m, id, now, initialized).result is Ok,
    ensures
        well_formed(settle_outcome(m, id, now, initialized).record),
        settle_outcome(m, id, now, initialized).record.circle.status == CircleStatus::Active
            ==> settle_outcome(m, id, now, initialized).record.circle.current_cycle
            == m.circle.current_cycle + 1,
{
    let c = m.circle.contribution;
    let s = m.members;
    let n = s.len();
    let s1 = collected(s, c);
    let s2 = after_payout(s1);
    let done = all_settled(s2);
    let o = settle_outcome(m, id, now, initialized);
    let s3 = o.record.members;
    lemma_settle_entries(m);
    lemma_recipient_index(s1);
    assert forall|i: int| 0 <= i < s3.len() implies entry_ok(#[trigger] s3[i], o.record.circle) by {
        assert(entry_ok(s2[i], m.circle));
    }
    assert(s3[0].member == s2[0].member);
    assert forall|i: int, j: int|
        0 <= i < s3.len() && 0 <= j < s3.len() && i != j implies #[trigger] s3[i].member
        != #[trigger] s3[j].member by {
        assert(s3[i].member == s[i].member);
        assert(s3[j].member == s[j].member);
    }
    if !done {
        let j = choose|j: int| 0 <= j < s2.len() && !(!is_eligible(#[trigger] s2[j]));
        lemma_count_received_agree(s, s1, n as nat);
        if recipient_index(s1) >= n {
            assert(!is_eligible(s1[j]));
        }
        let ki = recipient_index(s1);
        lemma_count_received_update(s1, ki, n as nat);
        assert(s2 == s1.update(ki, mark_received(s1[ki])));
        lemma_count_received_agree(s2, s3, n as nat);
        lemma_count_received_bounds(s2, n as nat);
        assert(m.circle.current_cycle + 1 == count_received(s2, n as nat));
    } else {
        assert forall|i: int| 0 <= i < s3.len() implies #[trigger] s3[i].state.deposit_remaining == 0
            && !s3[i].paid by {
            assert(entry_ok(s2[i], m.circle));
        }
    }
}

// ---- Execution --------------------------------------------------------------

impl CircleRecord {
    /// Whether every member who has not defaulted has paid this cycle.
    fn active_members_paid(&self) -> (r: bool)
        ensures
            r == all_active_paid(self.members@),
    {
        let n = self.members.len();
        let mut i: usize = 0;
        while i < n
            invariant
                n == self.members@.len(),
                i <= n,
                forall|j: int| 0 <= j < i ==> (!(#[trigger] self.members@[j]).state.defaulted ==> self.members@[j].paid),
            decreases n - i,
        {
            let e = self.members[i];
            if !e.state.defaulted && !e.paid {
                return false;
            }
            i = i + 1;
        }
        true
    }

    /// Pass 1: takes each active member's contribution or slash into the pot.
    fn collect_pot(&mut self, id: u32) -> (r: (i128, Vec<AccountId>, Vec<Effect>))
        requires
            old(self).circle.contribution > 0,
            forall|i: int|
                0 <= i < old(self).members@.len() ==> (#[trigger] old(self).members@[i]).state.deposit_remaining >= 0,
            held_prefix(old(self).members@, old(self).circle.contribution, old(self).members@.len())
                <= i128::MAX,
        ensures
            final(self).circle == old(self).circle,
            final(self).members@ == collected(old(self).members@, old(self).circle.contribution),
            r.0 == pot_prefix(old(self).members@, old(self).circle.contribution, old(self).members@.len()),
            r.1@ == payers_prefix(old(self).members@, old(self).members@.len()),
            r.2@ == collect_effects_prefix(
                old(self).members@,
                id,
                old(self).circle.contribution,
                old(self).members@.len(),
            ),
    {
        let ghost s = self.members@;
        let c = self.circle.contribution;
        let n = self.members.len();
        let mut pot: i128 = 0;
        let mut payers: Vec<AccountId> = Vec::new();
        let mut effects: Vec<Effect> = Vec::new();
        proof {
            lemma_pot_bounds(s, c, n as nat);
            lemma_held_prefix_nonneg(s, c, n as nat, n as nat);
        }
        let mut i: usize = 0;
        while i < n
            invariant
                n == s.len(),
                self.members@.len() == n,
                self.circle == old(self).circle,
                c == self.circle.contribution,
                c > 0,
                s == old(self).members@,
                forall|k: int| 0 <= k < s.len() ==> (#[trigger] s[k]).state.deposit_remaining >= 0,
                held_prefix(s, c, n as nat) <= i128::MAX,
                i <= n,
                forall|j: int| 0 <= j < i ==> #[trigger] self.members@[j] == collect_entry(s[j], c),
                forall|j: int| i <= j < n ==> #[trigger] self.members@[j] == s[j],
                pot == pot_prefix(s, c, i as nat),
                payers@ == payers_prefix(s, i as nat),
                effects@ == collect_effects_prefix(s, id, c, i as nat),
            decreases n - i,
        {
            proof {
                lemma_pot_bounds(s, c, (i + 1) as nat);
                lemma_held_prefix_nonneg(s, c, n as nat, (i + 1) as nat);
            }
            let e = self.members[i];
            let ghost effects_before = effects@;
            if e.state.defaulted {
            } else if e.paid {
                pot = pot + c;
                payers.push(e.member);
            } else {
                let slash = if e.state.deposit_remaining < c {
                    e.state.deposit_remaining
                } else {
                    c
                };
                let mut st = e.state;
                if slash > 0 {
                    st.deposit_remaining = st.deposit_remaining - slash;
                    pot = pot + slash;
                    effects.push(
                        Effect::Publish(CircleEvent::Slash { id, member: e.member, amount: slash }),
                    );
                }
                if slash < c {
                    st.defaulted = true;
                    effects.push(Effect::Publish(CircleEvent::Defaulted { id, member: e.member }));
                    effects.push(Effect::ReportDefault { member: e.member });
                }
                self.members.set(i, MemberEntry { state: st, ..e });
            }
            assert(effects@ =~= effects_before + collect_effects_of(s[i as int], id, c));
            i = i + 1;
        }
        assert(self.members@ =~= collected(s, c));
        (pot, payers, effects)
    }

    /// Pass 2: the first slot in join order that is active and still owed a
    /// payout, or the number of slots when there is none.
    fn find_recipient(&self) -> (k: usize)
        ensures
            k == recipient_index(self.members@),
    {
        let n = self.members.len();
        let mut k: usize = 0;
        while k < n
            invariant
                n == self.members@.len(),
                k <= n,
                forall|j: int| 0 <= j < k ==> !is_eligible(#[trigger] self.members@[j]),
            decreases n - k,
        {
            let e = self.members[k];
            if !e.state.received && !e.state.defaulted {
                proof {
                    assert(is_first_eligible(self.members@, k as int));
                    lemma_recipient_index(self.members@);
                }
                return k;
            }
            k = k + 1;
        }
        proof {
            lemma_recipient_index(self.members@);
            if recipient_index(self.members@) < n {
                let r = recipient_index(self.members@);
                assert(is_first_eligible(self.members@, r));
                assert(!is_eligible(self.members@[r]));
            }
        }
        k
    }

    /// Pass 2 when nobody is owed a payout: the payers get their
    /// contributions back plus equal shares of the slashes.
    fn refund_payers(payers: &Vec<AccountId>, c: i128, pot: i128) -> (effects: Vec<Effect>)
        requires
            c > 0,
            pot >= c * payers@.len(),
        ensures
            effects@ == payer_refunds(payers@, c, pot as int),
    {
        let mut effects: Vec<Effect> = Vec::new();
        let n = payers.len();
        if n == 0 {
            return effects;
        }
        let ghost ni = n as int;
        assert(c * ni <= pot);
        let np = n as i128;
        assert(c * np <= pot);
        let total = pot - c * np;
        let share = total / np;
        assert(0 <= share * np <= total) by (nonlinear_arith)
            requires
                total >= 0,
                np > 0,
                share == total / np,
        ;
        let rem = total - share * np;
        assert(c + share + rem <= pot) by (nonlinear_arith)
            requires
                np >= 1,
                c > 0,
                share >= 0,
                rem >= 0,
                pot == c * np + share * np + rem,
        ;
        let base = c + share;
        let mut i: usize = 0;
        while i < n
            invariant
                n == payers@.len(),
                n > 0,
                i <= n,
                base == c + share,
                0 <= share,
                0 <= rem,
                c > 0,
                c + share + rem <= pot,
                effects@ == refund_prefix(payers@, base as int, rem as int, i as nat),
            decreases n - i,
        {
            let amount = if i == 0 {
                base + rem
            } else {
                base
            };
            if amount > 0 {
                effects.push(Effect::Pay { to: payers[i], amount });
            }
            i = i + 1;
            assert(effects@ =~= refund_prefix(payers@, base as int, rem as int, i as nat));
        }
        effects
    }

    /// Permissionless crank: settles the current cycle at ledger time `now`
    /// once it is due. `initialized` tells whether the contract-wide
    /// configuration exists. Every token it takes out of the members' bonds
    /// and contributions is paid out, except the `retained` slashes (see
    /// `payout_effects`), which stay in escrow.
    /// What the circle holds fits a token amount,
    /// since the contract holds it, and the cycle's deadline must fit a
    /// timestamp, as computing it would otherwise overflow.
    pub fn settle_cycle(&mut self, id: u32, now: u64, initialized: bool) -> (r: Result<Vec<Effect>, Error>)
        requires
            well_formed(old(self)@),
            held(old(self)@) <= i128::MAX,
            old(self).circle.status == CircleStatus::Active ==> deadline_of(old(self).circle) <= u64::MAX,
        ensures
            matches_outcome(final(self)@, r, settle_outcome(old(self)@, id, now, initialized)),
            well_formed(final(self)@),
            r matches Ok(effects) ==> held(old(self)@) + net_inflow(effects@) == held(final(self)@)
                + retained(old(self)@),
    {
        if self.circle.status != CircleStatus::Active {
            return Err(Error::BadStatus);
        }
        let cycle = self.circle.current_cycle;
        let deadline = self.circle.started_at + (cycle as u64 + 1) * self.circle.period_secs;
        let all_paid = self.active_members_paid();
        if !all_paid && now <= deadline {
            return Err(Error::NotDue);
        }
        if !initialized {
            return Err(Error::NotInitialized);
        }
        let ghost m0 = self@;
        let ghost s = m0.members;
        let c = self.circle.contribution;
        let n = self.members.len();
        // Collect the pot: contributions of payers, slashes of those who missed.
        let (pot, payers, mut effects) = self.collect_pot(id);
        let ghost s1 = self.members@;
        proof {
            lemma_pot_bounds(s, c, n as nat);
        }
        // Pay the first eligible member in join order; when nobody is left,
        // return the pot to those who paid.
        let k = self.find_recipient();
        if k < n {
            let e = self.members[k];
            if pot > 0 {
                effects.push(Effect::Pay { to: e.member, amount: pot });
            }
            self.members.set(
                k,
                MemberEntry { state: MemberState { received: true, ..e.state }, ..e },
            );
            effects.push(
                Effect::Publish(
                    CircleEvent::Payout { id, recipient: e.member, amount: pot, cycle },
                ),
            );
        } else {
            let mut refunds = Self::refund_payers(&payers, c, pot);
            effects.append(&mut refunds);
        }
        let ghost s2 = self.members@;
        assert(s2 =~= after_payout(s1));
        let ghost effects_after_payout = effects@;
        assert(effects@ =~= collect_effects_prefix(s, id, c, n as nat) + payout_effects(
            s1,
            payers_prefix(s, n as nat),
            id,
            c,
            pot as int,
            cycle,
        ));
        // Complete when nobody active is still owed a payout, refunding the
        // bonds; otherwise advance the cycle.
        let done = self.find_recipient() == n;
        proof {
            lemma_recipient_index(s2);
        }
        assert(done == all_settled(s2));
        if done {
            let mut i: usize = 0;
            while i < n
                invariant
                    n == s2.len(),
                    self.members@.len() == n,
                    i <= n,
                    forall|j: int| 0 <= j < i ==> #[trigger] self.members@[j] == closing_entry(s2[j]),
                    forall|j: int| i <= j < n ==> #[trigger] self.members@[j] == s2[j],
                    self.circle == m0.circle,
                    effects@ == effects_after_payout + closing_effects_prefix(s2, i as nat),
                decreases n - i,
            {
                let e = self.members[i];
                let ghost before = effects@;
                if !e.state.defaulted {
                    if e.state.deposit_remaining > 0 {
                        effects.push(Effect::Pay { to: e.member, amount: e.state.deposit_remaining });
                        self.members.set(
                            i,
                            MemberEntry { state: MemberState { deposit_remaining: 0, ..e.state }, ..e },
                        );
                    }
                    effects.push(Effect::ReportCompletion { member: e.member });
                }
                assert(effects@ =~= before + closing_effects_of(s2[i as int]));
                i = i + 1;
                assert(effects@ =~= effects_after_payout + closing_effects_prefix(s2, i as nat));
            }
            effects.push(Effect::Publish(CircleEvent::Complete { id }));
            self.circle.status = CircleStatus::Completed;
        } else {
            proof {
                assert(exists|j: int| 0 <= j < s2.len() && is_eligible(#[trigger] s2[j]));
                let j = choose|j: int| 0 <= j < s2.len() && is_eligible(#[trigger] s2[j]);
                lemma_recipient_index(s1);
                lemma_count_received_agree(s, s1, n as nat);
                if recipient_index(s1) >= n {
                    assert(s2 == s1);
                    assert(!is_eligible(s1[j]));
                }
                let ki = recipient_index(s1);
                lemma_count_received_update(s1, ki, n as nat);
                assert(s2 == s1.update(ki, mark_received(s1[ki])));
                assert(!s2[j].state.received);
                lemma_count_received_bounds(s2, n as nat);
            }
            self.circle.current_cycle = cycle + 1;
        }
        // The next cycle starts with nobody having paid.
        let ghost s3 = self.members@;
        let ghost circle3 = self.circle;
        assert(done ==> s3 =~= s2.map_values(|e: MemberEntry| closing_entry(e)));
        assert(!done ==> s3 =~= s2);
        let mut i: usize = 0;
        while i < n
            invariant
                n == s3.len(),
                self.members@.len() == n,
                i <= n,
                forall|j: int| 0 <= j < i ==> #[trigger] self.members@[j] == clear_paid(s3[j]),
                forall|j: int| i <= j < n ==> #[trigger] self.members@[j] == s3[j],
                self.circle == circle3,
            decreases n - i,
        {
            let e = self.members[i];
            self.members.set(i, MemberEntry { paid: false, ..e });
            i = i + 1;
        }
        let ghost o = settle_outcome(m0, id, now, initialized);
        assert(self.members@ =~= o.record.members);
        assert(self@ =~= o.record);
        assert(o.result == Ok::<Seq<Effect>, Error>(effects@)) by {
            assert(o.result->Ok_0 =~= effects@);
        }
        proof {
            lemma_settle_preserves_wf(m0, id, now, initialized);
            crate::laws::lemma_settle_conserves_escrow(m0, id, now, initialized);
        }
        Ok(effects)
    }
}

proof fn lemma_count_received_update(s1: Seq<MemberEntry>, k: int, m: nat)
    requires
        0 <= k < s1.len(),
        m <= s1.len(),
        !s1[k].state.received,
    ensures
        m > k ==> count_received(s1.update(k, mark_received(s1[k])), m) == count_received(s1, m) + 1,
        m <= k ==> count_received(s1.update(k, mark_received(s1[k])), m) == count_received(s1, m),
    decreases m,
{
    if m > 0 {
        lemma_count_received_update(s1, k, (m - 1) as nat);
    }
}

} // verus!
