//! One circle: its stored record, its members in join order, and every
//! operation of its lifecycle except settlement (see `settle`).
use vstd::prelude::*;

use crate::types::{
    net_inflow, AccountId, Circle, CircleEvent, CircleStatus, Effect, Error, MemberEntry,
    MemberState,
};

verus! {

/// The state of one circle: its record and its members in join order
/// (which is also the payout order).
pub struct CircleRecord {
    pub circle: Circle,
    pub members: Vec<MemberEntry>,
}

/// The mathematical view of a `CircleRecord`.
#[verifier::ext_equal]
pub struct RecordModel {
    pub circle: Circle,
    pub members: Seq<MemberEntry>,
}

impl View for CircleRecord {
    type V = RecordModel;

    open spec fn view(&self) -> RecordModel {
        RecordModel { circle: self.circle, members: self.members@ }
    }
}

/// What an operation does: the record afterwards, and either the effects it
/// asks for or the error it fails with (in which case nothing changes).
pub struct Outcome {
    pub record: RecordModel,
    pub result: Result<Seq<Effect>, Error>,
}

pub open spec fn fails(m: RecordModel, e: Error) -> Outcome {
    Outcome { record: m, result: Err(e) }
}

pub open spec fn succeeds(m: RecordModel, effects: Seq<Effect>) -> Outcome {
    Outcome { record: m, result: Ok(effects) }
}

/// An executed call (record afterwards, returned value) agrees with `o`.
pub open spec fn matches_outcome(m: RecordModel, r: Result<Vec<Effect>, Error>, o: Outcome) -> bool {
    &&& m == o.record
    &&& match r {
        Ok(v) => o.result == Ok::<Seq<Effect>, Error>(v@),
        Err(e) => o.result == Err::<Seq<Effect>, Error>(e),
    }
}

// ---- Membership -------------------------------------------------------------

pub open spec fn has_member(s: Seq<MemberEntry>, a: AccountId) -> bool {
    exists|i: int| 0 <= i < s.len() && #[trigger] s[i].member == a
}

/// `i` is the first slot of the join order that holds `a`.
pub open spec fn is_first_at(s: Seq<MemberEntry>, a: AccountId, i: int) -> bool {
    &&& 0 <= i < s.len()
    &&& s[i].member == a
    &&& forall|j: int| 0 <= j < i ==> #[trigger] s[j].member != a
}

/// The slot that holds `a`, or -1.
pub open spec fn position_of(s: Seq<MemberEntry>, a: AccountId) -> int {
    if exists|i: int| is_first_at(s, a, i) {
        choose|i: int| is_first_at(s, a, i)
    } else {
        -1
    }
}

/// No address holds two slots.
pub open spec fn distinct_members(s: Seq<MemberEntry>) -> bool {
    forall|i: int, j: int|
        0 <= i < s.len() && 0 <= j < s.len() && i != j ==> #[trigger] s[i].member != #[trigger] s[j].member
}

pub proof fn lemma_position_of(s: Seq<MemberEntry>, a: AccountId)
    ensures
        has_member(s, a) ==> is_first_at(s, a, position_of(s, a)),
        !has_member(s, a) ==> position_of(s, a) == -1,
        forall|i: int| is_first_at(s, a, i) ==> position_of(s, a) == i,
{
    if has_member(s, a) {
        let i = choose|i: int| 0 <= i < s.len() && #[trigger] s[i].member == a;
        lemma_first_exists(s, a, i);
    }
    assert forall|i: int| is_first_at(s, a, i) implies position_of(s, a) == i by {
        let k = position_of(s, a);
        assert(is_first_at(s, a, k));
        if k < i {
            assert(s[k].member != a);
        } else if i < k {
            assert(s[i].member != a);
        }
    }
}

proof fn lemma_first_exists(s: Seq<MemberEntry>, a: AccountId, i: int)
    requires
        0 <= i < s.len(),
        s[i].member == a,
    ensures
        exists|k: int| is_first_at(s, a, k),
    decreases i,
{
    if exists|j: int| 0 <= j < i && #[trigger] s[j].member == a {
        let j = choose|j: int| 0 <= j < i && #[trigger] s[j].member == a;
        lemma_first_exists(s, a, j);
    } else {
        assert(is_first_at(s, a, i));
    }
}

/// The slots of `s` below `k` whose holder is not `a`, in order.
pub open spec fn without_prefix(s: Seq<MemberEntry>, a: AccountId, k: nat) -> Seq<MemberEntry>
    decreases k,
{
    if k == 0 {
        Seq::empty()
    } else {
        let rest = without_prefix(s, a, (k - 1) as nat);
        if s[k - 1].member != a {
            rest.push(s[k - 1])
        } else {
            rest
        }
    }
}

/// The join order with every slot of `a` removed.
pub open spec fn without(s: Seq<MemberEntry>, a: AccountId) -> Seq<MemberEntry> {
    without_prefix(s, a, s.len())
}

proof fn lemma_without_prefix_remove(s: Seq<MemberEntry>, a: AccountId, i: int, k: nat)
    requires
        distinct_members(s),
        0 <= i < s.len(),
        s[i].member == a,
        k <= s.len(),
    ensures
        k <= i ==> without_prefix(s, a, k) == s.take(k as int),
        k > i ==> without_prefix(s, a, k) == s.remove(i).take(k - 1),
    decreases k,
{
    if k > 0 {
        lemma_without_prefix_remove(s, a, i, (k - 1) as nat);
        if k - 1 == i {
            assert(without_prefix(s, a, k) =~= s.remove(i).take(k - 1));
        } else if k - 1 < i {
            assert(s[k - 1].member != a);
            assert(without_prefix(s, a, k) =~= s.take(k as int));
        } else {
            assert(s[k - 1].member != a);
            assert(without_prefix(s, a, k) =~= s.remove(i).take(k - 1));
        }
    } else {
        assert(without_prefix(s, a, k) =~= s.take(k as int));
    }
}

/// Without repeats, removing every slot of `a` is removing its one slot.
pub proof fn lemma_without_is_remove(s: Seq<MemberEntry>, i: int)
    requires
        distinct_members(s),
        0 <= i < s.len(),
    ensures
        without(s, s[i].member) == s.remove(i),
{
    lemma_without_prefix_remove(s, s[i].member, i, s.len());
    assert(s.remove(i).take(s.len() - 1) =~= s.remove(i));
}

// ---- Well-formedness and escrow ---------------------------------------------

pub open spec fn fresh_entry(a: AccountId, deposit: i128) -> MemberEntry {
    MemberEntry {
        member: a,
        state: MemberState { deposit_remaining: deposit, received: false, defaulted: false },
        paid: false,
    }
}

/// How many of the slots below `k` have received their payout.
pub open spec fn count_received(s: Seq<MemberEntry>, k: nat) -> nat
    decreases k,
{
    if k == 0 {
        0
    } else {
        count_received(s, (k - 1) as nat) + if s[k - 1].state.received { 1nat } else { 0nat }
    }
}

pub proof fn lemma_count_received_agree(s1: Seq<MemberEntry>, s2: Seq<MemberEntry>, k: nat)
    requires
        k <= s1.len(),
        k <= s2.len(),
        forall|j: int| 0 <= j < k ==> s1[j].state.received == s2[j].state.received,
    ensures
        count_received(s1, k) == count_received(s2, k),
    decreases k,
{
    if k > 0 {
        lemma_count_received_agree(s1, s2, (k - 1) as nat);
    }
}

pub proof fn lemma_count_received_bounds(s: Seq<MemberEntry>, k: nat)
    requires
        k <= s.len(),
    ensures
        count_received(s, k) <= k,
        (forall|j: int| 0 <= j < k ==> !(#[trigger] s[j]).state.received) ==> count_received(s, k) == 0,
        (exists|j: int| 0 <= j < k && !(#[trigger] s[j]).state.received) ==> count_received(s, k) < k,
    decreases k,
{
    if k > 0 {
        lemma_count_received_bounds(s, (k - 1) as nat);
        if exists|j: int| 0 <= j < k && !(#[trigger] s[j]).state.received {
            let j = choose|j: int| 0 <= j < k && !(#[trigger] s[j]).state.received;
            if j < k - 1 {
                assert(exists|j: int| 0 <= j < k - 1 && !(#[trigger] s[j]).state.received);
            }
        }
    }
}

/// What each slot always satisfies: the bond is never negative and never
/// above what was escrowed, a payer has not defaulted, and a defaulted
/// member has nothing left.
pub open spec fn entry_ok(e: MemberEntry, c: Circle) -> bool {
    &&& 0 <= e.state.deposit_remaining <= c.deposit
    &&& e.paid ==> !e.state.defaulted
    &&& e.state.defaulted ==> e.state.deposit_remaining == 0
}

/// Everyone ahead of a paid-out member in join order has been paid out too,
/// or has defaulted.
pub open spec fn paid_in_join_order(s: Seq<MemberEntry>) -> bool {
    forall|i: int, j: int|
        0 <= i < j < s.len() && (#[trigger] s[j]).state.received ==> (#[trigger] s[i]).state.received
            || s[i].state.defaulted
}

/// The invariant of a circle's state, established at creation and kept by
/// every operation.
pub open spec fn well_formed(m: RecordModel) -> bool {
    let c = m.circle;
    let s = m.members;
    &&& c.contribution > 0
    &&& c.deposit >= 0
    &&& c.size >= 2
    &&& c.period_secs >= 3600
    &&& 1 <= s.len() <= c.size
    &&& s[0].member == c.creator
    &&& distinct_members(s)
    &&& forall|i: int| 0 <= i < s.len() ==> entry_ok(#[trigger] s[i], c)
    &&& paid_in_join_order(s)
    &&& c.status is Open ==> {
        &&& s.len() < c.size
        &&& c.started_at == 0
        &&& c.current_cycle == 0
        &&& forall|i: int| 0 <= i < s.len() ==> #[trigger] s[i] == fresh_entry(s[i].member, c.deposit)
    }
    &&& c.status is Active ==> s.len() == c.size && c.current_cycle == count_received(s, s.len())
    &&& c.status is Completed ==> {
        &&& s.len() == c.size
        &&& forall|i: int| 0 <= i < s.len() ==> #[trigger] s[i].state.deposit_remaining == 0 && !s[i].paid
    }
    &&& c.status is Cancelled ==> forall|i: int| 0 <= i < s.len() ==> !(#[trigger] s[i].paid)
}

/// What the contract holds in escrow for one slot: the bond left, plus this
/// cycle's contribution if it was paid.
pub open spec fn entry_held(e: MemberEntry, contribution: i128) -> int {
    e.state.deposit_remaining + if e.paid { contribution as int } else { 0int }
}

pub open spec fn held_prefix(s: Seq<MemberEntry>, contribution: i128, k: nat) -> int
    decreases k,
{
    if k == 0 {
        0
    } else {
        held_prefix(s, contribution, (k - 1) as nat) + entry_held(s[k - 1], contribution)
    }
}

/// The token amount the contract holds for this circle's members: bonds
/// left and this cycle's contributions. A cancelled circle has refunded
/// every bond and holds nothing for them. Slashes a settlement keeps
/// unassigned (`retained`) are not counted here.
pub open spec fn held(m: RecordModel) -> int {
    if m.circle.status is Cancelled {
        0
    } else {
        held_prefix(m.members, m.circle.contribution, m.members.len())
    }
}

pub proof fn lemma_held_prefix_agree(s1: Seq<MemberEntry>, s2: Seq<MemberEntry>, c: i128, k: nat)
    requires
        k <= s1.len(),
        k <= s2.len(),
        forall|j: int| 0 <= j < k ==> s1[j] == s2[j],
    ensures
        held_prefix(s1, c, k) == held_prefix(s2, c, k),
    decreases k,
{
    if k > 0 {
        lemma_held_prefix_agree(s1, s2, c, (k - 1) as nat);
    }
}

pub proof fn lemma_held_prefix_update(s: Seq<MemberEntry>, c: i128, i: int, e: MemberEntry, k: nat)
    requires
        0 <= i < s.len(),
        k <= s.len(),
    ensures
        k > i ==> held_prefix(s.update(i, e), c, k) == held_prefix(s, c, k) - entry_held(s[i], c)
            + entry_held(e, c),
        k <= i ==> held_prefix(s.update(i, e), c, k) == held_prefix(s, c, k),
    decreases k,
{
    if k > 0 {
        lemma_held_prefix_update(s, c, i, e, (k - 1) as nat);
    }
}

pub proof fn lemma_held_prefix_remove(s: Seq<MemberEntry>, c: i128, i: int, k: nat)
    requires
        0 <= i < s.len(),
        k <= s.len(),
    ensures
        k > i ==> held_prefix(s.remove(i), c, (k - 1) as nat) == held_prefix(s, c, k) - entry_held(
            s[i],
            c,
        ),
        k <= i ==> held_prefix(s.remove(i), c, k) == held_prefix(s, c, k),
    decreases k,
{
    if k > 0 {
        lemma_held_prefix_remove(s, c, i, (k - 1) as nat);
    }
}

pub proof fn lemma_held_prefix_nonneg(s: Seq<MemberEntry>, c: i128, k: nat, j: nat)
    requires
        c >= 0,
        j <= k <= s.len(),
        forall|i: int| 0 <= i < s.len() ==> (#[trigger] s[i]).state.deposit_remaining >= 0,
    ensures
        0 <= held_prefix(s, c, j) <= held_prefix(s, c, k),
    decreases k,
{
    if k > j {
        lemma_held_prefix_nonneg(s, c, (k - 1) as nat, j);
    } else if k > 0 {
        lemma_held_prefix_nonneg(s, c, (k - 1) as nat, (k - 1) as nat);
    }
}

// ---- Operations on an Open circle -------------------------------------------

pub open spec fn collect_if_positive(a: AccountId, amount: i128) -> Seq<Effect> {
    if amount > 0 {
        seq![Effect::Collect { from: a, amount }]
    } else {
        Seq::empty()
    }
}

pub open spec fn pay_if_positive(a: AccountId, amount: i128) -> Seq<Effect> {
    if amount > 0 {
        seq![Effect::Pay { to: a, amount }]
    } else {
        Seq::empty()
    }
}

/// `create_circle` accepts exactly these parameters.
pub open spec fn valid_params(contribution: i128, deposit: i128, size: u32, period_secs: u64) -> bool {
    contribution > 0 && deposit >= 0 && size >= 2 && period_secs >= 3600
}

/// The circle `create_circle` opens: the creator is its first member, with
/// the whole deposit escrowed.
pub open spec fn opened(
    creator: AccountId,
    token: AccountId,
    contribution: i128,
    deposit: i128,
    size: u32,
    period_secs: u64,
) -> RecordModel {
    RecordModel {
        circle: Circle {
            creator,
            token,
            contribution,
            deposit,
            size,
            period_secs,
            status: CircleStatus::Open,
            started_at: 0,
            current_cycle: 0,
        },
        members: seq![fresh_entry(creator, deposit)],
    }
}

pub open spec fn open_effects(id: u32, creator: AccountId, deposit: i128) -> Seq<Effect> {
    collect_if_positive(creator, deposit) + seq![
        Effect::Publish(CircleEvent::Create { id, creator }),
    ]
}

pub open spec fn join_outcome(m: RecordModel, id: u32, a: AccountId, now: u64) -> Outcome {
    if m.circle.status != CircleStatus::Open {
        fails(m, Error::BadStatus)
    } else if has_member(m.members, a) {
        fails(m, Error::AlreadyMember)
    } else if m.members.len() >= m.circle.size {
        fails(m, Error::CircleFull)
    } else {
        let members = m.members.push(fresh_entry(a, m.circle.deposit));
        let starts = members.len() == m.circle.size;
        let circle = if starts {
            Circle { status: CircleStatus::Active, started_at: now, ..m.circle }
        } else {
            m.circle
        };
        let effects = collect_if_positive(a, m.circle.deposit) + seq![
            Effect::Publish(CircleEvent::Join { id, member: a }),
        ] + if starts {
            seq![Effect::Publish(CircleEvent::Start { id })]
        } else {
            Seq::empty()
        };
        succeeds(RecordModel { circle, members }, effects)
    }
}

pub open spec fn leave_outcome(m: RecordModel, a: AccountId) -> Outcome {
    if m.circle.status != CircleStatus::Open {
        fails(m, Error::BadStatus)
    } else if a == m.circle.creator {
        fails(m, Error::IsCreator)
    } else if !has_member(m.members, a) {
        fails(m, Error::NotMember)
    } else {
        let e = m.members[position_of(m.members, a)];
        succeeds(
            RecordModel { circle: m.circle, members: without(m.members, a) },
            pay_if_positive(a, e.state.deposit_remaining),
        )
    }
}

/// One refund per slot below `k`, in join order, of the bond left.
pub open spec fn bond_refunds(s: Seq<MemberEntry>, k: nat) -> Seq<Effect>
    decreases k,
{
    if k == 0 {
        Seq::empty()
    } else {
        bond_refunds(s, (k - 1) as nat) + pay_if_positive(
            s[k - 1].member,
            s[k - 1].state.deposit_remaining,
        )
    }
}

pub open spec fn cancel_outcome(m: RecordModel, id: u32, caller: AccountId) -> Outcome {
    if caller != m.circle.creator {
        fails(m, Error::NotCreator)
    } else if m.circle.status != CircleStatus::Open {
        fails(m, Error::BadStatus)
    } else {
        succeeds(
            RecordModel {
                circle: Circle { status: CircleStatus::Cancelled, ..m.circle },
                members: m.members,
            },
            bond_refunds(m.members, m.members.len()) + seq![
                Effect::Publish(CircleEvent::Cancel { id }),
            ],
        )
    }
}

pub open spec fn contribute_outcome(m: RecordModel, id: u32, a: AccountId) -> Outcome {
    if m.circle.status != CircleStatus::Active {
        fails(m, Error::BadStatus)
    } else if !has_member(m.members, a) {
        fails(m, Error::NotMember)
    } else {
        let i = position_of(m.members, a);
        let e = m.members[i];
        if e.state.defaulted {
            fails(m, Error::Defaulted)
        } else if e.paid {
            fails(m, Error::AlreadyPaid)
        } else {
            succeeds(
                RecordModel {
                    circle: m.circle,
                    members: m.members.update(i, MemberEntry { paid: true, ..e }),
                },
                seq![
                    Effect::Collect { from: a, amount: m.circle.contribution },
                    Effect::Publish(
                        CircleEvent::Contrib { id, member: a, cycle: m.circle.current_cycle },
                    ),
                ],
            )
        }
    }
}

/// Unix seconds by which the current cycle must settle.
pub open spec fn deadline_of(c: Circle) -> int {
    c.started_at + (c.current_cycle + 1) * c.period_secs
}

pub open spec fn member_ids(s: Seq<MemberEntry>) -> Seq<AccountId> {
    Seq::new(s.len(), |i: int| s[i].member)
}

impl CircleRecord {
    /// Opens a circle with the creator as its first member (`create_circle`).
    /// `initialized` tells whether the contract-wide configuration exists;
    /// nothing opens before it does.
    pub fn open(
        id: u32,
        initialized: bool,
        creator: AccountId,
        token: AccountId,
        contribution: i128,
        deposit: i128,
        size: u32,
        period_secs: u64,
    ) -> (r: Result<(CircleRecord, Vec<Effect>), Error>)
        ensures
            match r {
                Ok((rec, effects)) => {
                    &&& initialized
                    &&& valid_params(contribution, deposit, size, period_secs)
                    &&& rec@ == opened(creator, token, contribution, deposit, size, period_secs)
                    &&& effects@ == open_effects(id, creator, deposit)
                    &&& well_formed(rec@)
                    &&& rec.circle.creator == creator
                    &&& rec.circle.token == token
                    &&& rec.circle.contribution == contribution
                    &&& rec.circle.deposit == deposit
                    &&& rec.circle.size == size
                    &&& rec.circle.period_secs == period_secs
                    &&& rec.circle.status == CircleStatus::Open
                    &&& rec.members@.len() == 1
                    &&& rec.members@[0].member == creator
                    &&& rec.members@[0].state.deposit_remaining == deposit
                },
                Err(e) => if !initialized {
                    e == Error::NotInitialized
                } else {
                    !valid_params(contribution, deposit, size, period_secs) && e == Error::BadParams
                },
            },
    {
        if !initialized {
            return Err(Error::NotInitialized);
        }
        if contribution <= 0 || deposit < 0 || size < 2 || period_secs < 3600 {
            return Err(Error::BadParams);
        }
        let mut effects: Vec<Effect> = Vec::new();
        if deposit > 0 {
            effects.push(Effect::Collect { from: creator, amount: deposit });
        }
        effects.push(Effect::Publish(CircleEvent::Create { id, creator }));
        let circle = Circle {
            creator,
            token,
            contribution,
            deposit,
            size,
            period_secs,
            status: CircleStatus::Open,
            started_at: 0,
            current_cycle: 0,
        };
        let mut members: Vec<MemberEntry> = Vec::new();
        members.push(
            MemberEntry {
                member: creator,
                state: MemberState { deposit_remaining: deposit, received: false, defaulted: false },
                paid: false,
            },
        );
        let rec = CircleRecord { circle, members };
        assert(rec@ =~= opened(creator, token, contribution, deposit, size, period_secs));
        assert(effects@ =~= open_effects(id, creator, deposit));
        assert(count_received(rec.members@, 1) == 0) by {
            lemma_count_received_bounds(rec.members@, 1);
        }
        Ok((rec, effects))
    }

    /// The first slot that holds `a`, if any.
    pub fn find_member(&self, a: AccountId) -> (r: Option<usize>)
        ensures
            match r {
                Some(i) => is_first_at(self.members@, a, i as int) && position_of(self.members@, a)
                    == i,
                None => !has_member(self.members@, a) && position_of(self.members@, a) == -1,
            },
    {
        let n = self.members.len();
        let mut i: usize = 0;
        while i < n
            invariant
                n == self.members@.len(),
                i <= n,
                forall|j: int| 0 <= j < i ==> #[trigger] self.members@[j].member != a,
            decreases n - i,
        {
            if self.members[i].member == a {
                proof {
                    lemma_position_of(self.members@, a);
                }
                return Some(i);
            }
            i = i + 1;
        }
        proof {
            lemma_position_of(self.members@, a);
        }
        None
    }

    /// Appends `a` to the join order of an Open circle, escrowing the
    /// deposit; activates the circle at `now` when it reaches `size`.
    pub fn join(&mut self, id: u32, a: AccountId, now: u64) -> (r: Result<Vec<Effect>, Error>)
        ensures
            matches_outcome(final(self)@, r, join_outcome(old(self)@, id, a, now)),
            well_formed(old(self)@) ==> (r matches Ok(effects) ==> held(old(self)@) + net_inflow(
                effects@,
            ) == held(final(self)@)),
            well_formed(old(self)@) ==> well_formed(final(self)@),
    {
        if self.circle.status != CircleStatus::Open {
            return Err(Error::BadStatus);
        }
        if self.find_member(a).is_some() {
            return Err(Error::AlreadyMember);
        }
        if self.members.len() >= self.circle.size as usize {
            return Err(Error::CircleFull);
        }
        let ghost old_m = self@;
        let mut effects: Vec<Effect> = Vec::new();
        let deposit = self.circle.deposit;
        if deposit > 0 {
            effects.push(Effect::Collect { from: a, amount: deposit });
        }
        self.members.push(
            MemberEntry {
                member: a,
                state: MemberState { deposit_remaining: deposit, received: false, defaulted: false },
                paid: false,
            },
        );
        effects.push(Effect::Publish(CircleEvent::Join { id, member: a }));
        if self.members.len() == self.circle.size as usize {
            self.circle.status = CircleStatus::Active;
            self.circle.started_at = now;
            effects.push(Effect::Publish(CircleEvent::Start { id }));
        }
        let ghost o = join_outcome(old_m, id, a, now);
        assert(self@ =~= o.record);
        assert(o.result == Ok::<Seq<Effect>, Error>(effects@)) by {
            assert(o.result->Ok_0 =~= effects@);
        }
        proof {
            if well_formed(old_m) {
                let s = self.members@;
                assert forall|i: int, j: int|
                    0 <= i < s.len() && 0 <= j < s.len() && i != j implies #[trigger] s[i].member
                    != #[trigger] s[j].member by {
                    if i == s.len() - 1 {
                        assert(old_m.members[j].member == s[j].member);
                    } else if j == s.len() - 1 {
                        assert(old_m.members[i].member == s[i].member);
                    }
                }
                assert(s[0] == old_m.members[0]);
                if self.circle.status == CircleStatus::Active {
                    lemma_count_received_bounds(s, s.len());
                }
            }
        }
        proof {
            if well_formed(old_m) {
                crate::laws::lemma_open_phase_conserves_escrow(old_m, id, a, now);
            }
        }
        Ok(effects)
    }

    /// A non-creator leaves an Open circle and is refunded the bond in full.
    pub fn leave(&mut self, a: AccountId) -> (r: Result<Vec<Effect>, Error>)
        ensures
            matches_outcome(final(self)@, r, leave_outcome(old(self)@, a)),
            well_formed(old(self)@) ==> (r matches Ok(effects) ==> held(old(self)@) + net_inflow(
                effects@,
            ) == held(final(self)@)),
            well_formed(old(self)@) ==> well_formed(final(self)@),
    {
        if self.circle.status != CircleStatus::Open {
            return Err(Error::BadStatus);
        }
        if a == self.circle.creator {
            return Err(Error::IsCreator);
        }
        let pos = match self.find_member(a) {
            Some(p) => p,
            None => {
                return Err(Error::NotMember);
            },
        };
        let ghost old_m = self@;
        let refund = self.members[pos].state.deposit_remaining;
        let mut effects: Vec<Effect> = Vec::new();
        if refund > 0 {
            effects.push(Effect::Pay { to: a, amount: refund });
        }
        let mut remaining: Vec<MemberEntry> = Vec::new();
        let n = self.members.len();
        let mut i: usize = 0;
        while i < n
            invariant
                n == self.members@.len(),
                self@ == old_m,
                i <= n,
                remaining@ == without_prefix(old_m.members, a, i as nat),
            decreases n - i,
        {
            let e = self.members[i];
            if e.member != a {
                remaining.push(e);
            }
            i = i + 1;
        }
        self.members = remaining;
        let ghost o = leave_outcome(old_m, a);
        assert(self@ =~= o.record);
        assert(o.result == Ok::<Seq<Effect>, Error>(effects@)) by {
            assert(o.result->Ok_0 =~= effects@);
        }
        proof {
            if well_formed(old_m) {
                let s = old_m.members;
                lemma_without_is_remove(s, pos as int);
                let t = s.remove(pos as int);
                assert(pos > 0);
                assert(t[0] == s[0]);
                assert forall|i: int, j: int|
                    0 <= i < t.len() && 0 <= j < t.len() && i != j implies #[trigger] t[i].member
                    != #[trigger] t[j].member by {
                    let i2 = if i < pos { i } else { i + 1 };
                    let j2 = if j < pos { j } else { j + 1 };
                    assert(t[i] == s[i2] && t[j] == s[j2]);
                }
                assert forall|i: int| 0 <= i < t.len() implies entry_ok(#[trigger] t[i], old_m.circle)
                    && t[i] == fresh_entry(t[i].member, old_m.circle.deposit) by {
                    let i2 = if i < pos { i } else { i + 1 };
                    assert(t[i] == s[i2]);
                }
            }
        }
        proof {
            if well_formed(old_m) {
                crate::laws::lemma_open_phase_conserves_escrow(old_m, 0, a, 0);
            }
        }
        Ok(effects)
    }

    /// The creator cancels an Open circle; every member's bond is refunded.
    pub fn cancel(&mut self, id: u32, caller: AccountId) -> (r: Result<Vec<Effect>, Error>)
        ensures
            matches_outcome(final(self)@, r, cancel_outcome(old(self)@, id, caller)),
            well_formed(old(self)@) ==> (r matches Ok(effects) ==> held(old(self)@) + net_inflow(
                effects@,
            ) == held(final(self)@)),
            well_formed(old(self)@) ==> well_formed(final(self)@),
    {
        if caller != self.circle.creator {
            return Err(Error::NotCreator);
        }
        if self.circle.status != CircleStatus::Open {
            return Err(Error::BadStatus);
        }
        let ghost old_m = self@;
        let mut effects: Vec<Effect> = Vec::new();
        let n = self.members.len();
        let mut i: usize = 0;
        while i < n
            invariant
                n == self.members@.len(),
                self@ == old_m,
                i <= n,
                effects@ == bond_refunds(old_m.members, i as nat),
            decreases n - i,
        {
            let e = self.members[i];
            if e.state.deposit_remaining > 0 {
                effects.push(Effect::Pay { to: e.member, amount: e.state.deposit_remaining });
            }
            i = i + 1;
            assert(effects@ =~= bond_refunds(old_m.members, i as nat));
        }
        effects.push(Effect::Publish(CircleEvent::Cancel { id }));
        self.circle.status = CircleStatus::Cancelled;
        let ghost o = cancel_outcome(old_m, id, caller);
        assert(self@ =~= o.record);
        assert(o.result == Ok::<Seq<Effect>, Error>(effects@)) by {
            assert(o.result->Ok_0 =~= effects@);
        }
        proof {
            if well_formed(old_m) {
                crate::laws::lemma_open_phase_conserves_escrow(old_m, id, caller, 0);
            }
        }
        Ok(effects)
    }

    /// A member pays this cycle's contribution into escrow.
    pub fn contribute(&mut self, id: u32, a: AccountId) -> (r: Result<Vec<Effect>, Error>)
        ensures
            matches_outcome(final(self)@, r, contribute_outcome(old(self)@, id, a)),
            well_formed(old(self)@) ==> (r matches Ok(effects) ==> held(old(self)@) + net_inflow(
                effects@,
            ) == held(final(self)@)),
            well_formed(old(self)@) ==> well_formed(final(self)@),
    {
        if self.circle.status != CircleStatus::Active {
            return Err(Error::BadStatus);
        }
        let pos = match self.find_member(a) {
            Some(p) => p,
            None => {
                return Err(Error::NotMember);
            },
        };
        let e = self.members[pos];
        if e.state.defaulted {
            return Err(Error::Defaulted);
        }
        if e.paid {
            return Err(Error::AlreadyPaid);
        }
        let ghost old_m = self@;
        self.members.set(pos, MemberEntry { paid: true, ..e });
        let mut effects: Vec<Effect> = Vec::new();
        effects.push(Effect::Collect { from: a, amount: self.circle.contribution });
        effects.push(
            Effect::Publish(
                CircleEvent::Contrib { id, member: a, cycle: self.circle.current_cycle },
            ),
        );
        let ghost o = contribute_outcome(old_m, id, a);
        assert(self@ =~= o.record);
        assert(o.result == Ok::<Seq<Effect>, Error>(effects@)) by {
            assert(o.result->Ok_0 =~= effects@);
        }
        proof {
            if well_formed(old_m) {
                let s = self.members@;
                assert forall|i: int, j: int|
                    0 <= i < s.len() && 0 <= j < s.len() && i != j implies #[trigger] s[i].member
                    != #[trigger] s[j].member by {
                    assert(s[i].member == old_m.members[i].member);
                    assert(s[j].member == old_m.members[j].member);
                }
                assert(s[0].member == old_m.members[0].member);
                assert forall|i: int| 0 <= i < s.len() implies entry_ok(#[trigger] s[i], self.circle) by {
                    assert(entry_ok(old_m.members[i], self.circle));
                }
                lemma_count_received_agree(s, old_m.members, s.len());
            }
        }
        proof {
            if well_formed(old_m) {
                crate::laws::lemma_open_phase_conserves_escrow(old_m, id, a, 0);
            }
        }
        Ok(effects)
    }

    /// The circle's stored record.
    pub fn get_circle(&self) -> (c: Circle)
        ensures
            c == self.circle,
    {
        self.circle
    }

    /// Members in join order, which is the payout order.
    pub fn get_members(&self) -> (v: Vec<AccountId>)
        ensures
            v@ == member_ids(self.members@),
            v@.len() == self.members@.len(),
            forall|i: int| 0 <= i < v@.len() ==> v@[i] == (#[trigger] self.members@[i]).member,
    {
        let mut v: Vec<AccountId> = Vec::new();
        let n = self.members.len();
        let mut i: usize = 0;
        while i < n
            invariant
                n == self.members@.len(),
                i <= n,
                v@.len() == i,
                forall|j: int| 0 <= j < i ==> v@[j] == #[trigger] self.members@[j].member,
            decreases n - i,
        {
            v.push(self.members[i].member);
            i = i + 1;
        }
        assert(v@ =~= member_ids(self.members@));
        v
    }

    /// The standing of member `a`.
    pub fn get_member(&self, a: AccountId) -> (r: Result<MemberState, Error>)
        ensures
            match r {
                Ok(st) => has_member(self.members@, a) && st == self.members@[position_of(
                    self.members@,
                    a,
                )].state,
                Err(e) => !has_member(self.members@, a) && e == Error::NotMember,
            },
    {
        match self.find_member(a) {
            Some(i) => Ok(self.members[i].state),
            None => Err(Error::NotMember),
        }
    }

    /// Unix seconds by which the current cycle must settle.
    pub fn cycle_deadline(&self) -> (d: u64)
        requires
            deadline_of(self.circle) <= u64::MAX,
        ensures
            d == deadline_of(self.circle),
            d == self.circle.started_at + (self.circle.current_cycle + 1) * self.circle.period_secs,
    {
        self.circle.started_at + (self.circle.current_cycle as u64 + 1) * self.circle.period_secs
    }
}

// ---- Checks a caller makes before settlement --------------------------------

impl CircleRecord {
    /// Whether the record satisfies `well_formed`.
    pub fn is_well_formed(&self) -> (b: bool)
        ensures
            b == well_formed(self@),
    {
        let c = self.circle;
        let n = self.members.len();
        if !(c.contribution > 0 && c.deposit >= 0 && c.size >= 2 && c.period_secs >= 3600) {
            return false;
        }
        if n < 1 || n > c.size as usize {
            return false;
        }
        if self.members[0].member != c.creator {
            return false;
        }
        let ghost s = self.members@;
        // No address holds two slots.
        let mut i: usize = 0;
        while i < n
            invariant
                n == s.len(),
                s == self.members@,
                i <= n,
                forall|a: int, b: int|
                    0 <= a < i && 0 <= b < n && a != b ==> #[trigger] s[a].member
                        != #[trigger] s[b].member,
            decreases n - i,
        {
            let mut j: usize = 0;
            while j < n
                invariant
                    n == s.len(),
                    s == self.members@,
                    i < n,
                    j <= n,
                    forall|a: int, b: int|
                        0 <= a < i && 0 <= b < n && a != b ==> #[trigger] s[a].member
                            != #[trigger] s[b].member,
                    forall|b: int| 0 <= b < j && b != i ==> s[i as int].member != #[trigger] s[b].member,
                decreases n - j,
            {
                if j != i && self.members[i].member == self.members[j].member {
                    assert(!distinct_members(s));
                    return false;
                }
                j = j + 1;
            }
            i = i + 1;
        }
        // Paid-out members come first in join order, defaulters aside.
        let mut j: usize = 0;
        while j < n
            invariant
                n == s.len(),
                s == self.members@,
                j <= n,
                forall|a: int, b: int|
                    0 <= a < b < j && (#[trigger] s[b]).state.received ==> (#[trigger] s[a]).state.received
                        || s[a].state.defaulted,
            decreases n - j,
        {
            if self.members[j].state.received {
                let mut i: usize = 0;
                while i < j
                    invariant
                        n == s.len(),
                        s == self.members@,
                        j < n,
                        i <= j,
                        s[j as int].state.received,
                        forall|a: int| 0 <= a < i ==> (#[trigger] s[a]).state.received || s[a].state.defaulted,
                        forall|a: int, b: int|
                            0 <= a < b < j && (#[trigger] s[b]).state.received ==> (#[trigger] s[a]).state.received
                                || s[a].state.defaulted,
                    decreases j - i,
                {
                    let e = self.members[i];
                    if !e.state.received && !e.state.defaulted {
                        assert(!paid_in_join_order(s));
                        return false;
                    }
                    i = i + 1;
                }
            }
            j = j + 1;
        }
        // Every slot, and what the status asks of it.
        let mut received: u32 = 0;
        let mut k: usize = 0;
        while k < n
            invariant
                n == s.len(),
                s == self.members@,
                c == self.circle,
                n <= c.size,
                k <= n,
                received == count_received(s, k as nat),
                forall|a: int| 0 <= a < k ==> entry_ok(#[trigger] s[a], c),
                c.status is Open ==> forall|a: int|
                    0 <= a < k ==> #[trigger] s[a] == fresh_entry(s[a].member, c.deposit),
                c.status is Completed ==> forall|a: int|
                    0 <= a < k ==> #[trigger] s[a].state.deposit_remaining == 0 && !s[a].paid,
                c.status is Cancelled ==> forall|a: int| 0 <= a < k ==> !(#[trigger] s[a].paid),
            decreases n - k,
        {
            proof {
                lemma_count_received_bounds(s, k as nat);
            }
            let e = self.members[k];
            let st = e.state;
            if !(0 <= st.deposit_remaining && st.deposit_remaining <= c.deposit) {
                return false;
            }
            if e.paid && st.defaulted {
                return false;
            }
            if st.defaulted && st.deposit_remaining != 0 {
                return false;
            }
            match c.status {
                CircleStatus::Open => {
                    if st.deposit_remaining != c.deposit || st.received || st.defaulted || e.paid {
                        return false;
                    }
                },
                CircleStatus::Completed => {
                    if st.deposit_remaining != 0 || e.paid {
                        return false;
                    }
                },
                CircleStatus::Cancelled => {
                    if e.paid {
                        return false;
                    }
                },
                CircleStatus::Active => {},
            }
            if st.received {
                received = received + 1;
            }
            k = k + 1;
        }
        match c.status {
            CircleStatus::Open => {
                if n >= c.size as usize || c.started_at != 0 || c.current_cycle != 0 {
                    return false;
                }
            },
            CircleStatus::Active => {
                if n != c.size as usize || c.current_cycle != received {
                    return false;
                }
            },
            CircleStatus::Completed => {
                if n != c.size as usize {
                    return false;
                }
            },
            CircleStatus::Cancelled => {},
        }
        true
    }

    /// What the contract holds in escrow for this circle, or `None` when it
    /// exceeds what a token amount can hold.
    pub fn escrow_balance(&self) -> (r: Option<i128>)
        ensures
            r matches Some(v) ==> v == held(self@),
            well_formed(self@) && r is None ==> held(self@) > i128::MAX,
    {
        if self.circle.status == CircleStatus::Cancelled {
            return Some(0);
        }
        let c = self.circle.contribution;
        let n = self.members.len();
        let ghost s = self.members@;
        let mut total: i128 = 0;
        let mut i: usize = 0;
        while i < n
            invariant
                n == s.len(),
                s == self.members@,
                c == self.circle.contribution,
                !(self.circle.status is Cancelled),
                i <= n,
                total == held_prefix(s, c, i as nat),
            decreases n - i,
        {
            let e = self.members[i];
            let part = if e.paid {
                match e.state.deposit_remaining.checked_add(c) {
                    Some(v) => v,
                    None => {
                        proof {
                            self.lemma_escrow_overflow(i as nat);
                        }
                        return None;
                    },
                }
            } else {
                e.state.deposit_remaining
            };
            match total.checked_add(part) {
                Some(v) => {
                    total = v;
                },
                None => {
                    proof {
                        self.lemma_escrow_overflow(i as nat);
                    }
                    return None;
                },
            }
            i = i + 1;
        }
        Some(total)
    }

    proof fn lemma_escrow_overflow(&self, i: nat)
        requires
            i < self.members@.len(),
            !(self.circle.status is Cancelled),
        ensures
            well_formed(self@) ==> {
                &&& held_prefix(self.members@, self.circle.contribution, i) >= 0
                &&& held_prefix(self.members@, self.circle.contribution, (i + 1) as nat) <= held(self@)
            },
    {
        let s = self.members@;
        let c = self.circle.contribution;
        if well_formed(self@) {
            assert forall|k: int| 0 <= k < s.len() implies (#[trigger] s[k]).state.deposit_remaining
                >= 0 by {
                assert(entry_ok(s[k], self.circle));
            }
            lemma_held_prefix_nonneg(s, c, s.len(), (i + 1) as nat);
            lemma_held_prefix_nonneg(s, c, i, i);
        }
    }

    /// Whether the current cycle's deadline fits in a timestamp.
    pub fn deadline_fits(&self) -> (b: bool)
        ensures
            b == (deadline_of(self.circle) <= u64::MAX),
    {
        let c = self.circle;
        let cycles = c.current_cycle as u64 + 1;
        match cycles.checked_mul(c.period_secs) {
            None => false,
            Some(span) => c.started_at.checked_add(span).is_some(),
        }
    }
}

} // verus!
