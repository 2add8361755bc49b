//! Properties of the protocol as a whole: escrow accounting, the
//! forward-only lifecycle, payout order and the permanence of standings.
use vstd::prelude::*;

use crate::record::{
    bond_refunds, cancel_outcome, collect_if_positive, contribute_outcome, count_received, entry_ok,
    fresh_entry, has_member, held, held_prefix, join_outcome, member_ids, leave_outcome, lemma_held_prefix_agree,
    lemma_held_prefix_remove, lemma_held_prefix_update, lemma_position_of, lemma_without_is_remove,
    open_effects, opened, pay_if_positive, position_of, valid_params, well_formed, Outcome,
    RecordModel,
};
use crate::settle::{
    after_payout, all_settled, closing_effects_of, closing_effects_prefix, collect_effects_of,
    collect_effects_prefix, collect_entry, collected, is_eligible, is_first_eligible,
    lemma_pot_bounds, lemma_recipient_index, payers_prefix, payout_effects, pot_part, pot_prefix,
    recipient_index, refund_prefix, retained, settle_outcome, slash_of,
};
use crate::circle::{contract_step, ContractModel};
use crate::reputation::{
    completion_recorded, default_recorded, is_allowed, reputation_of, ReputationModel,
};
use crate::types::{
    effect_flow, lemma_net_inflow_concat, lemma_net_inflow_single, net_inflow, AccountId,
    CircleEvent, CircleStatus, Effect, Error, MemberEntry,
};

verus! {

// ---- Sums over the join order -----------------------------------------------

/// The bonds left in the slots below `k`.
pub open spec fn bonds_prefix(s: Seq<MemberEntry>, k: nat) -> int
    decreases k,
{
    if k == 0 {
        0
    } else {
        bonds_prefix(s, (k - 1) as nat) + s[k - 1].state.deposit_remaining
    }
}

proof fn lemma_bonds_agree(s1: Seq<MemberEntry>, s2: Seq<MemberEntry>, k: nat)
    requires
        k <= s1.len(),
        k <= s2.len(),
        forall|j: int|
            0 <= j < k ==> (#[trigger] s1[j]).state.deposit_remaining
                == s2[j].state.deposit_remaining,
    ensures
        bonds_prefix(s1, k) == bonds_prefix(s2, k),
    decreases k,
{
    if k > 0 {
        lemma_bonds_agree(s1, s2, (k - 1) as nat);
    }
}

proof fn lemma_held_is_bonds(s: Seq<MemberEntry>, c: i128, k: nat)
    requires
        k <= s.len(),
        forall|j: int| 0 <= j < k ==> !(#[trigger] s[j]).paid,
    ensures
        held_prefix(s, c, k) == bonds_prefix(s, k),
    decreases k,
{
    if k > 0 {
        lemma_held_is_bonds(s, c, (k - 1) as nat);
    }
}

proof fn lemma_bonds_zero(s: Seq<MemberEntry>, k: nat)
    requires
        k <= s.len(),
        forall|j: int| 0 <= j < k ==> (#[trigger] s[j]).state.deposit_remaining == 0,
    ensures
        bonds_prefix(s, k) == 0,
    decreases k,
{
    if k > 0 {
        lemma_bonds_zero(s, (k - 1) as nat);
    }
}

/// Collection splits what was held into the pot and the bonds left.
proof fn lemma_collect_split(s: Seq<MemberEntry>, c: i128, k: nat)
    requires
        c > 0,
        k <= s.len(),
        forall|j: int|
            0 <= j < s.len() ==> {
                &&& (#[trigger] s[j]).state.deposit_remaining >= 0
                &&& s[j].paid ==> !s[j].state.defaulted
                &&& s[j].state.defaulted ==> s[j].state.deposit_remaining == 0
            },
    ensures
        held_prefix(s, c, k) == pot_prefix(s, c, k) + bonds_prefix(collected(s, c), k),
    decreases k,
{
    if k > 0 {
        lemma_collect_split(s, c, (k - 1) as nat);
        let e = s[k - 1];
        assert(collected(s, c)[k - 1] == collect_entry(e, c));
    }
}

proof fn lemma_collect_effects_no_flow(s: Seq<MemberEntry>, id: u32, c: i128, k: nat)
    requires
        k <= s.len(),
    ensures
        net_inflow(collect_effects_prefix(s, id, c, k)) == 0,
    decreases k,
{
    if k > 0 {
        lemma_collect_effects_no_flow(s, id, c, (k - 1) as nat);
        let e = s[k - 1];
        let part = collect_effects_of(e, id, c);
        lemma_net_inflow_concat(collect_effects_prefix(s, id, c, (k - 1) as nat), part);
        if !(e.state.defaulted || e.paid) {
            let sl = slash_of(e, c);
            let a: Seq<Effect> = if sl > 0 {
                seq![Effect::Publish(CircleEvent::Slash { id, member: e.member, amount: sl })]
            } else {
                Seq::empty()
            };
            let b: Seq<Effect> = if sl < c {
                seq![
                    Effect::Publish(CircleEvent::Defaulted { id, member: e.member }),
                    Effect::ReportDefault { member: e.member },
                ]
            } else {
                Seq::empty()
            };
            lemma_net_inflow_concat(a, b);
            if sl > 0 {
                lemma_net_inflow_single(a[0]);
                assert(a =~= seq![a[0]]);
            }
            if sl < c {
                lemma_net_inflow_single(b[0]);
                lemma_net_inflow_single(b[1]);
                assert(b =~= seq![b[0]] + seq![b[1]]);
                lemma_net_inflow_concat(seq![b[0]], seq![b[1]]);
            }
        }
    }
}

proof fn lemma_pay_if_positive_flow(a: AccountId, amount: i128)
    requires
        amount >= 0,
    ensures
        net_inflow(pay_if_positive(a, amount)) == -amount,
{
    if amount > 0 {
        lemma_net_inflow_single(Effect::Pay { to: a, amount });
    }
}

proof fn lemma_collect_if_positive_flow(a: AccountId, amount: i128)
    requires
        amount >= 0,
    ensures
        net_inflow(collect_if_positive(a, amount)) == amount,
{
    if amount > 0 {
        lemma_net_inflow_single(Effect::Collect { from: a, amount });
    }
}

proof fn lemma_publish_flow(ev: CircleEvent)
    ensures
        net_inflow(seq![Effect::Publish(ev)]) == 0,
{
    lemma_net_inflow_single(Effect::Publish(ev));
}

proof fn lemma_refund_flow(ps: Seq<AccountId>, base: int, rem: int, k: nat)
    requires
        k <= ps.len(),
        0 < base,
        0 <= rem,
        base + rem <= i128::MAX,
    ensures
        net_inflow(refund_prefix(ps, base, rem, k)) == -(k * base + if k > 0 {
            rem
        } else {
            0
        }),
    decreases k,
{
    if k > 0 {
        lemma_refund_flow(ps, base, rem, (k - 1) as nat);
        let amount = base + if k - 1 == 0 {
            rem
        } else {
            0int
        };
        let part: Seq<Effect> = seq![Effect::Pay { to: ps[k - 1], amount: amount as i128 }];
        assert(0 < amount <= i128::MAX);
        assert(refund_prefix(ps, base, rem, k) == refund_prefix(ps, base, rem, (k - 1) as nat) + part);
        lemma_net_inflow_concat(refund_prefix(ps, base, rem, (k - 1) as nat), part);
        lemma_net_inflow_single(part[0]);
        assert(k * base == (k - 1) * base + base) by (nonlinear_arith);
        if k == 1 {
            assert((k - 1) * base == 0) by (nonlinear_arith)
                requires
                    k == 1,
            ;
        }
        assert(effect_flow(part[0]) == -amount);
    } else {
        assert(k * base == 0) by (nonlinear_arith)
            requires
                k == 0,
        ;
    }
}

proof fn lemma_closing_flow(s: Seq<MemberEntry>, k: nat)
    requires
        k <= s.len(),
        forall|j: int|
            0 <= j < s.len() ==> {
                &&& (#[trigger] s[j]).state.deposit_remaining >= 0
                &&& s[j].state.defaulted ==> s[j].state.deposit_remaining == 0
            },
    ensures
        net_inflow(closing_effects_prefix(s, k)) == -bonds_prefix(s, k),
    decreases k,
{
    if k > 0 {
        lemma_closing_flow(s, (k - 1) as nat);
        let e = s[k - 1];
        lemma_net_inflow_concat(closing_effects_prefix(s, (k - 1) as nat), closing_effects_of(e));
        if !e.state.defaulted {
            let r = seq![Effect::ReportCompletion { member: e.member }];
            lemma_net_inflow_concat(pay_if_positive(e.member, e.state.deposit_remaining), r);
            lemma_pay_if_positive_flow(e.member, e.state.deposit_remaining);
            lemma_net_inflow_single(r[0]);
        }
    }
}

// ---- Escrow accounting -------------------------------------------------------

/// A new circle holds exactly the creator's deposit, which is what
/// `create_circle` collects.
pub proof fn lemma_create_conserves_escrow(
    id: u32,
    creator: AccountId,
    token: AccountId,
    contribution: i128,
    deposit: i128,
    size: u32,
    period_secs: u64,
)
    requires
        valid_params(contribution, deposit, size, period_secs),
    ensures
        held(opened(creator, token, contribution, deposit, size, period_secs)) == net_inflow(
            open_effects(id, creator, deposit),
        ),
        well_formed(opened(creator, token, contribution, deposit, size, period_secs)),
{
    let m = opened(creator, token, contribution, deposit, size, period_secs);
    lemma_net_inflow_concat(
        collect_if_positive(creator, deposit),
        seq![Effect::Publish(CircleEvent::Create { id, creator })],
    );
    lemma_collect_if_positive_flow(creator, deposit);
    lemma_publish_flow(CircleEvent::Create { id, creator });
    assert(held_prefix(m.members, contribution, 0) == 0);
    assert(held_prefix(m.members, contribution, 1) == deposit);
}

/// Escrow accounting: for every successful `join`, `leave`, `cancel` or
/// `contribute` on a well-formed circle, what the contract holds for the
/// circle changes by exactly the tokens the call moves in and out.
pub proof fn lemma_open_phase_conserves_escrow(m: RecordModel, id: u32, a: AccountId, now: u64)
    requires
        well_formed(m),
    ensures
        join_outcome(m, id, a, now).result matches Ok(effects) ==> held(m) + net_inflow(effects)
            == held(join_outcome(m, id, a, now).record),
        leave_outcome(m, a).result matches Ok(effects) ==> held(m) + net_inflow(effects) == held(
            leave_outcome(m, a).record,
        ),
        cancel_outcome(m, id, a).result matches Ok(effects) ==> held(m) + net_inflow(effects)
            == held(cancel_outcome(m, id, a).record),
        contribute_outcome(m, id, a).result matches Ok(effects) ==> held(m) + net_inflow(effects)
            == held(contribute_outcome(m, id, a).record),
{
    let c = m.circle.contribution;
    let s = m.members;
    let n = s.len();
    // join
    let oj = join_outcome(m, id, a, now);
    if oj.result is Ok {
        let e = fresh_entry(a, m.circle.deposit);
        let t = s.push(e);
        lemma_held_prefix_agree(s, t, c, n as nat);
        assert(held_prefix(t, c, (n + 1) as nat) == held_prefix(s, c, n as nat) + m.circle.deposit);
        let starts = t.len() == m.circle.size;
        let tail: Seq<Effect> = if starts {
            seq![Effect::Publish(CircleEvent::Start { id })]
        } else {
            Seq::empty()
        };
        let ev = seq![Effect::Publish(CircleEvent::Join { id, member: a })];
        lemma_net_inflow_concat(collect_if_positive(a, m.circle.deposit), ev);
        lemma_net_inflow_concat(collect_if_positive(a, m.circle.deposit) + ev, tail);
        lemma_collect_if_positive_flow(a, m.circle.deposit);
        lemma_publish_flow(CircleEvent::Join { id, member: a });
        if starts {
            lemma_publish_flow(CircleEvent::Start { id });
        }
    }
    // leave
    let ol = leave_outcome(m, a);
    if ol.result is Ok {
        lemma_position_of(s, a);
        let i = position_of(s, a);
        lemma_without_is_remove(s, i);
        lemma_held_prefix_remove(s, c, i, n as nat);
        assert(entry_ok(s[i], m.circle));
        assert(s[i] == fresh_entry(s[i].member, m.circle.deposit));
        lemma_pay_if_positive_flow(a, s[i].state.deposit_remaining);
    }
    // cancel
    let oc = cancel_outcome(m, id, a);
    if oc.result is Ok {
        lemma_cancel_refunds_flow(m, n as nat);
        lemma_net_inflow_concat(
            bond_refunds(s, n as nat),
            seq![Effect::Publish(CircleEvent::Cancel { id })],
        );
        lemma_publish_flow(CircleEvent::Cancel { id });
    }
    // contribute
    let ot = contribute_outcome(m, id, a);
    if ot.result is Ok {
        lemma_position_of(s, a);
        let i = position_of(s, a);
        let e = s[i];
        lemma_held_prefix_update(s, c, i, MemberEntry { paid: true, ..e }, n as nat);
        let eff = ot.result->Ok_0;
        assert(eff =~= seq![eff[0]] + seq![eff[1]]);
        lemma_net_inflow_concat(seq![eff[0]], seq![eff[1]]);
        lemma_net_inflow_single(eff[0]);
        lemma_net_inflow_single(eff[1]);
    }
}

proof fn lemma_cancel_refunds_flow(m: RecordModel, k: nat)
    requires
        well_formed(m),
        m.circle.status is Open,
        k <= m.members.len(),
    ensures
        net_inflow(bond_refunds(m.members, k)) == -held_prefix(
            m.members,
            m.circle.contribution,
            k,
        ),
    decreases k,
{
    if k > 0 {
        let s = m.members;
        lemma_cancel_refunds_flow(m, (k - 1) as nat);
        assert(entry_ok(s[k - 1], m.circle));
        assert(s[k - 1] == fresh_entry(s[k - 1].member, m.circle.deposit));
        lemma_net_inflow_concat(
            bond_refunds(s, (k - 1) as nat),
            pay_if_positive(s[k - 1].member, s[k - 1].state.deposit_remaining),
        );
        lemma_pay_if_positive_flow(s[k - 1].member, s[k - 1].state.deposit_remaining);
    }
}

/// Escrow accounting for settlement: everything a settlement takes out of
/// the members' bonds and contributions is paid out (to the recipient, back
/// to the payers, or as refunded bonds at completion), except the
/// `retained` slashes of a settlement that leaves nobody owed a payout when
/// nobody paid, which stay in escrow.
pub proof fn lemma_settle_conserves_escrow(m: RecordModel, id: u32, now: u64, initialized: bool)
    requires
        well_formed(m),
        held(m) <= i128::MAX,
    ensures
        settle_outcome(m, id, now, initialized).result matches Ok(effects) ==> held(m) + net_inflow(
            effects,
        ) == held(settle_outcome(m, id, now, initialized).record) + retained(m),
{
    let o = settle_outcome(m, id, now, initialized);
    if o.result is Ok {
        let c = m.circle.contribution;
        let s = m.members;
        let n = s.len();
        let pot = pot_prefix(s, c, n);
        let s1 = collected(s, c);
        let s2 = after_payout(s1);
        let done = all_settled(s2);
        let payers = payers_prefix(s, n);
        let cycle = m.circle.current_cycle;
        assert forall|j: int| 0 <= j < s.len() implies {
            &&& (#[trigger] s[j]).state.deposit_remaining >= 0
            &&& s[j].paid ==> !s[j].state.defaulted
            &&& s[j].state.defaulted ==> s[j].state.deposit_remaining == 0
        } by {
            assert(entry_ok(s[j], m.circle));
        }
        lemma_collect_split(s, c, n);
        lemma_pot_bounds(s, c, n);
        crate::settle::lemma_settle_entries(m);
        lemma_collect_effects_no_flow(s, id, c, n);
        lemma_recipient_index(s1);
        let k = recipient_index(s1);
        // Pass 2.
        let pe = payout_effects(s1, payers, id, c, pot, cycle);
        if k < n {
            let ev = seq![
                Effect::Publish(
                    CircleEvent::Payout { id, recipient: s1[k].member, amount: pot as i128, cycle },
                ),
            ];
            lemma_net_inflow_concat(pay_if_positive(s1[k].member, pot as i128), ev);
            lemma_pay_if_positive_flow(s1[k].member, pot as i128);
            lemma_net_inflow_single(ev[0]);
            assert(net_inflow(pe) == -pot);
        } else if payers.len() > 0 {
            let np = payers.len() as int;
            let total = pot - c * np;
            let share = total / np;
            let rem = total - share * np;
            assert(0 <= share * np <= total && 0 <= share) by (nonlinear_arith)
                requires
                    total >= 0,
                    np > 0,
                    share == total / np,
            ;
            assert(c + share + rem <= pot) by (nonlinear_arith)
                requires
                    np >= 1,
                    c > 0,
                    share >= 0,
                    rem >= 0,
                    pot == c * np + share * np + rem,
            ;
            lemma_refund_flow(payers, c + share, rem, np as nat);
            assert(np * (c + share) + rem == pot) by (nonlinear_arith)
                requires
                    total == pot - c * np,
                    rem == total - share * np,
            ;
            assert(net_inflow(pe) == -pot);
        } else {
            assert(pe =~= Seq::<Effect>::empty());
            assert(net_inflow(pe) == 0);
        }
        lemma_bonds_agree(s1, s2, n);
        let first = collect_effects_prefix(s, id, c, n);
        lemma_net_inflow_concat(first, pe);
        if done {
            let closing = closing_effects_prefix(s2, n) + seq![
                Effect::Publish(CircleEvent::Complete { id }),
            ];
            lemma_closing_flow(s2, n);
            lemma_net_inflow_concat(
                closing_effects_prefix(s2, n),
                seq![Effect::Publish(CircleEvent::Complete { id })],
            );
            lemma_publish_flow(CircleEvent::Complete { id });
            lemma_net_inflow_concat(first + pe, closing);
            let s3 = o.record.members;
            assert forall|j: int| 0 <= j < n implies !(#[trigger] s3[j]).paid
                && s3[j].state.deposit_remaining == 0 by {
                assert(entry_ok(s2[j], m.circle));
            }
            lemma_held_is_bonds(s3, c, n);
            lemma_bonds_zero(s3, n);
        } else {
            lemma_net_inflow_concat(first + pe, Seq::empty());
            assert(first + pe + Seq::<Effect>::empty() =~= first + pe);
            let s3 = o.record.members;
            lemma_held_is_bonds(s3, c, n);
            lemma_bonds_agree(s2, s3, n);
            assert(k < n);
        }
    }
}

/// A completed circle holds nothing for its members: every bond has been
/// refunded or consumed and no contribution is pending. (The contract may
/// still keep `retained` slashes from its last settlement.)
pub proof fn lemma_completed_circle_holds_nothing(m: RecordModel)
    requires
        well_formed(m),
        m.circle.status is Completed,
    ensures
        held(m) == 0,
{
    let s = m.members;
    lemma_held_is_bonds(s, m.circle.contribution, s.len());
    lemma_bonds_zero(s, s.len());
}

// ---- Lifecycle ---------------------------------------------------------------

/// Open < Active < {Completed, Cancelled}.
pub open spec fn status_rank(st: CircleStatus) -> int {
    match st {
        CircleStatus::Open => 0,
        CircleStatus::Active => 1,
        CircleStatus::Completed => 2,
        CircleStatus::Cancelled => 2,
    }
}

/// The outcomes of every operation on one circle.
pub open spec fn all_outcomes(m: RecordModel, id: u32, a: AccountId, now: u64, initialized: bool) -> Seq<
    Outcome,
> {
    seq![
        join_outcome(m, id, a, now),
        leave_outcome(m, a),
        cancel_outcome(m, id, a),
        contribute_outcome(m, id, a),
        settle_outcome(m, id, now, initialized),
    ]
}

/// The lifecycle only moves forward: no operation lowers the status, a
/// completed or cancelled circle refuses every operation, and once a circle
/// is Active nobody can join, leave or cancel it.
pub proof fn lemma_lifecycle_forward_only(
    m: RecordModel,
    id: u32,
    a: AccountId,
    now: u64,
    initialized: bool,
)
    ensures
        forall|i: int|
            0 <= i < 5 ==> status_rank((#[trigger] all_outcomes(m, id, a, now, initialized)[i]).record.circle.status)
                >= status_rank(m.circle.status),
        (m.circle.status is Completed || m.circle.status is Cancelled) ==> forall|i: int|
            0 <= i < 5 ==> (#[trigger] all_outcomes(m, id, a, now, initialized)[i]).result is Err
                && all_outcomes(m, id, a, now, initialized)[i].record == m,
        !(m.circle.status is Open) ==> {
            &&& join_outcome(m, id, a, now).result is Err
            &&& leave_outcome(m, a).result is Err
            &&& cancel_outcome(m, id, a).result is Err
        },
{
    let os = all_outcomes(m, id, a, now, initialized);
    assert(os[0] == join_outcome(m, id, a, now));
    assert(os[1] == leave_outcome(m, a));
    assert(os[2] == cancel_outcome(m, id, a));
    assert(os[3] == contribute_outcome(m, id, a));
    assert(os[4] == settle_outcome(m, id, now, initialized));
}

/// While a circle runs, the join order never changes, a member who has
/// been paid stays paid, a default is permanent, and a bond only shrinks.
pub proof fn lemma_standing_is_permanent(m: RecordModel, id: u32, a: AccountId, now: u64, initialized: bool)
    requires
        well_formed(m),
    ensures
        forall|i: int|
            3 <= i < 5 ==> {
                let r = (#[trigger] all_outcomes(m, id, a, now, initialized)[i]).record.members;
                &&& r.len() == m.members.len()
                &&& forall|j: int|
                    0 <= j < r.len() ==> {
                        &&& (#[trigger] r[j]).member == m.members[j].member
                        &&& m.members[j].state.received ==> r[j].state.received
                        &&& m.members[j].state.defaulted ==> r[j].state.defaulted
                        &&& r[j].state.deposit_remaining <= m.members[j].state.deposit_remaining
                    }
            },
{
    let os = all_outcomes(m, id, a, now, initialized);
    assert(os[3] == contribute_outcome(m, id, a));
    assert(os[4] == settle_outcome(m, id, now, initialized));
    let c = m.circle.contribution;
    let s = m.members;
    let s1 = collected(s, c);
    let s2 = after_payout(s1);
    crate::settle::lemma_settle_entries(m);
    lemma_recipient_index(s1);
    assert forall|j: int| 0 <= j < s.len() implies #[trigger] s2[j].state.deposit_remaining
        <= s[j].state.deposit_remaining && (s[j].state.defaulted ==> s2[j].state.defaulted) && (
    s[j].state.received ==> s2[j].state.received) by {
        assert(entry_ok(s[j], m.circle));
        assert(s1[j] == collect_entry(s[j], c));
    }
    if contribute_outcome(m, id, a).result is Ok {
        lemma_position_of(s, a);
    }
}

/// Payouts follow the join order: a settlement pays the first member who
/// has neither been paid nor defaulted, the whole pot goes to that member,
/// and every member ahead of them has already been paid or has defaulted.
pub proof fn lemma_payout_follows_join_order(m: RecordModel, id: u32, now: u64, initialized: bool)
    requires
        well_formed(m),
        settle_outcome(m, id, now, initialized).result is Ok,
    ensures
        ({
            let c = m.circle.contribution;
            let s = m.members;
            let s1 = collected(s, c);
            let k = recipient_index(s1);
            let pot = pot_prefix(s, c, s.len());
            k < s.len() ==> {
                &&& !s[k].state.received
                &&& !s1[k].state.defaulted
                &&& forall|j: int|
                    0 <= j < k ==> (#[trigger] s[j]).state.received || s1[j].state.defaulted
                &&& settle_outcome(m, id, now, initialized).record.members[k].state.received
                &&& settle_outcome(m, id, now, initialized).result->Ok_0.contains(
                    Effect::Publish(
                        CircleEvent::Payout {
                            id,
                            recipient: s[k].member,
                            amount: pot as i128,
                            cycle: m.circle.current_cycle,
                        },
                    ),
                )
            }
        }),
{
    let c = m.circle.contribution;
    let s = m.members;
    let n = s.len();
    let s1 = collected(s, c);
    let k = recipient_index(s1);
    lemma_recipient_index(s1);
    crate::settle::lemma_settle_entries(m);
    if k < n {
        assert forall|j: int| 0 <= j < k implies (#[trigger] s[j]).state.received
            || s1[j].state.defaulted by {
            assert(!is_eligible(s1[j]));
        }
        let pot = pot_prefix(s, c, n);
        let ev = Effect::Publish(
            CircleEvent::Payout { id, recipient: s[k].member, amount: pot as i128, cycle: m.circle.current_cycle },
        );
        let pe = payout_effects(s1, payers_prefix(s, n), id, c, pot, m.circle.current_cycle);
        let first = collect_effects_prefix(s, id, c, n);
        let pay = pay_if_positive(s1[k].member, pot as i128);
        assert(pe == pay + seq![ev]);
        assert(pe[pay.len() as int] == ev);
        let o = settle_outcome(m, id, now, initialized);
        let eff = o.result->Ok_0;
        assert(eff[(first.len() + pay.len()) as int] == ev);
    }
}

// ---- Reputation ----------------------------------------------------------------

/// Reports only ever add: a report raises one count of one member by
/// exactly one and leaves every other history as it was.
pub proof fn lemma_reports_only_add(m: ReputationModel, member: AccountId, other: AccountId)
    requires
        reputation_of(m, member).completed < u32::MAX,
        reputation_of(m, member).defaulted < u32::MAX,
    ensures
        reputation_of(completion_recorded(m, member), member).completed == reputation_of(
            m,
            member,
        ).completed + 1,
        reputation_of(completion_recorded(m, member), member).defaulted == reputation_of(
            m,
            member,
        ).defaulted,
        reputation_of(default_recorded(m, member), member).defaulted == reputation_of(
            m,
            member,
        ).defaulted + 1,
        reputation_of(default_recorded(m, member), member).completed == reputation_of(
            m,
            member,
        ).completed,
        other != member ==> reputation_of(completion_recorded(m, member), other) == reputation_of(
            m,
            other,
        ),
        other != member ==> reputation_of(default_recorded(m, member), other) == reputation_of(
            m,
            other,
        ),
{
    if other != member {
        assert(other.0 != member.0);
    }
}

/// Revocation takes effect at once: after the admin sets `reporter` to
/// not allowed, its reports are refused, whatever it was before.
pub proof fn lemma_revoked_reporter_rejected(m: ReputationModel, reporter: AccountId)
    ensures
        !is_allowed(
            ReputationModel { reporters: m.reporters.insert(reporter.0, false), ..m },
            reporter,
        ),
{
}

/// The admin's last word on a reporter holds: after setting `reporter` to
/// `allowed`, its reports are accepted exactly when `allowed` is true, and
/// every other address keeps its standing on the allow-list.
pub proof fn lemma_allow_list_follows_admin(
    m: ReputationModel,
    reporter: AccountId,
    allowed: bool,
    other: AccountId,
)
    ensures
        is_allowed(
            ReputationModel { reporters: m.reporters.insert(reporter.0, allowed), ..m },
            reporter,
        ) == allowed,
        other != reporter ==> is_allowed(
            ReputationModel { reporters: m.reporters.insert(reporter.0, allowed), ..m },
            other,
        ) == is_allowed(m, other),
{
    if other != reporter {
        assert(other.0 != reporter.0);
    }
}

// ---- Rotation order ----------------------------------------------------------

proof fn lemma_received_prefix(s: Seq<MemberEntry>, k: nat)
    requires
        k <= s.len(),
        forall|i: int, j: int|
            0 <= i < j < s.len() && (#[trigger] s[j]).state.received ==> (#[trigger] s[i]).state.received,
    ensures
        forall|i: int| 0 <= i < k ==> ((#[trigger] s[i]).state.received <==> i < count_received(s, k)),
        count_received(s, k) <= k,
    decreases k,
{
    if k > 0 {
        lemma_received_prefix(s, (k - 1) as nat);
        if s[k - 1].state.received {
            assert forall|i: int| 0 <= i < k - 1 implies (#[trigger] s[i]).state.received by {
                assert(s[k - 1].state.received);
            }
        }
    }
}

/// With nobody in default, the rotation is the join order exactly: the
/// settlement of cycle `k` pays the member in slot `k`.
pub proof fn lemma_rotation_pays_slot_of_cycle(m: RecordModel)
    requires
        well_formed(m),
        m.circle.status is Active,
        forall|i: int|
            0 <= i < m.members.len() ==> !(#[trigger] collected(m.members, m.circle.contribution)[i]).state.defaulted,
    ensures
        recipient_index(collected(m.members, m.circle.contribution)) == m.circle.current_cycle,
{
    let c = m.circle.contribution;
    let s = m.members;
    let n = s.len();
    let s1 = collected(s, c);
    assert forall|i: int| 0 <= i < n implies !(#[trigger] s[i]).state.defaulted
        && s1[i].state.received == s[i].state.received by {
        assert(s1[i] == collect_entry(s[i], c));
        assert(!s1[i].state.defaulted);
    }
    assert forall|i: int, j: int|
        0 <= i < j < s.len() && (#[trigger] s[j]).state.received implies (#[trigger] s[i]).state.received by {
        assert(!s[i].state.defaulted);
    }
    lemma_received_prefix(s, n);
    let r = m.circle.current_cycle as int;
    assert(r == count_received(s, n));
    lemma_recipient_index(s1);
    if r < n {
        assert forall|j: int| 0 <= j < r implies !is_eligible(#[trigger] s1[j]) by {
            assert(s[j].state.received);
        }
        assert(is_first_eligible(s1, r));
    } else {
        if recipient_index(s1) < n {
            let k = recipient_index(s1);
            assert(is_eligible(s1[k]));
            assert(s[k].state.received);
        }
    }
}

/// A member who misses a cycle pays the contribution out of the bond; a
/// bond that cannot cover it is used up and the member defaults.
pub proof fn lemma_missed_contribution(e: MemberEntry, c: i128)
    requires
        c > 0,
        e.state.deposit_remaining >= 0,
        !e.state.defaulted,
        !e.paid,
    ensures
        e.state.deposit_remaining >= c ==> {
            &&& collect_entry(e, c).state.deposit_remaining == e.state.deposit_remaining - c
            &&& !collect_entry(e, c).state.defaulted
            &&& pot_part(e, c) == c
        },
        e.state.deposit_remaining < c ==> {
            &&& collect_entry(e, c).state.deposit_remaining == 0
            &&& collect_entry(e, c).state.defaulted
            &&& pot_part(e, c) == e.state.deposit_remaining
        },
        collect_entry(e, c).state.received == e.state.received,
        collect_entry(e, c).member == e.member,
{
}

// ---- Histories -----------------------------------------------------------------

/// `m2` with `effects` is the successful outcome of operation `kind` on
/// circle `id` in state `m` (0 join, 1 leave, 2 cancel, 3 contribute,
/// 4 settle).
pub open spec fn circle_step(
    m: RecordModel,
    id: u32,
    effects: Seq<Effect>,
    m2: RecordModel,
    kind: int,
) -> bool {
    &&& 0 <= kind < 5
    &&& exists|a: AccountId, now: u64, initialized: bool|
        #[trigger] all_outcomes(m, id, a, now, initialized)[kind] == (Outcome {
            record: m2,
            result: Ok(effects),
        })
}

/// The net token flow of the effect lists below `k`.
pub open spec fn total_inflow(es: Seq<Seq<Effect>>, k: nat) -> int
    decreases k,
{
    if k == 0 {
        0
    } else {
        total_inflow(es, (k - 1) as nat) + net_inflow(es[k - 1])
    }
}

/// The slashes kept in escrow by the settlements among the steps below `k`.
pub open spec fn total_retained(ms: Seq<RecordModel>, kinds: Seq<int>, k: nat) -> int
    decreases k,
{
    if k <= 1 {
        0
    } else {
        total_retained(ms, kinds, (k - 1) as nat) + if kinds[k - 1] == 4 {
            retained(ms[k - 2])
        } else {
            0int
        }
    }
}

/// Over a circle's whole history (its creation, then any successful
/// operations) the tokens that moved in minus those that moved out are
/// exactly what it holds for its members plus the `retained` slashes. A
/// completed or cancelled circle holds nothing for its members: the only
/// tokens left in escrow are the retained slashes.
pub proof fn lemma_history_balances(
    ms: Seq<RecordModel>,
    es: Seq<Seq<Effect>>,
    kinds: Seq<int>,
    id: u32,
    creator: AccountId,
    token: AccountId,
    contribution: i128,
    deposit: i128,
    size: u32,
    period_secs: u64,
)
    requires
        ms.len() == es.len(),
        ms.len() == kinds.len(),
        ms.len() >= 1,
        valid_params(contribution, deposit, size, period_secs),
        ms[0] == opened(creator, token, contribution, deposit, size, period_secs),
        es[0] == open_effects(id, creator, deposit),
        forall|i: int|
            1 <= i < ms.len() ==> circle_step(ms[i - 1], id, es[i], #[trigger] ms[i], kinds[i]),
        forall|i: int| 0 <= i < ms.len() ==> well_formed(#[trigger] ms[i]) && held(ms[i]) <= i128::MAX,
    ensures
        total_inflow(es, es.len()) == held(ms.last()) + total_retained(ms, kinds, ms.len()),
        ms.last().circle.status is Completed || ms.last().circle.status is Cancelled ==> total_inflow(
            es,
            es.len(),
        ) == total_retained(ms, kinds, ms.len()),
{
    lemma_history_prefix(
        ms,
        es,
        kinds,
        id,
        creator,
        token,
        contribution,
        deposit,
        size,
        period_secs,
        ms.len(),
    );
    if ms.last().circle.status is Completed {
        lemma_completed_circle_holds_nothing(ms.last());
    }
}

proof fn lemma_history_prefix(
    ms: Seq<RecordModel>,
    es: Seq<Seq<Effect>>,
    kinds: Seq<int>,
    id: u32,
    creator: AccountId,
    token: AccountId,
    contribution: i128,
    deposit: i128,
    size: u32,
    period_secs: u64,
    k: nat,
)
    requires
        ms.len() == es.len(),
        ms.len() == kinds.len(),
        1 <= k <= ms.len(),
        valid_params(contribution, deposit, size, period_secs),
        ms[0] == opened(creator, token, contribution, deposit, size, period_secs),
        es[0] == open_effects(id, creator, deposit),
        forall|i: int|
            1 <= i < ms.len() ==> circle_step(ms[i - 1], id, es[i], #[trigger] ms[i], kinds[i]),
        forall|i: int| 0 <= i < ms.len() ==> well_formed(#[trigger] ms[i]) && held(ms[i]) <= i128::MAX,
    ensures
        total_inflow(es, k) == held(ms[k - 1]) + total_retained(ms, kinds, k),
    decreases k,
{
    if k == 1 {
        lemma_create_conserves_escrow(id, creator, token, contribution, deposit, size, period_secs);
        assert(total_inflow(es, 0) == 0);
    } else {
        lemma_history_prefix(
            ms,
            es,
            kinds,
            id,
            creator,
            token,
            contribution,
            deposit,
            size,
            period_secs,
            (k - 1) as nat,
        );
        let m = ms[k - 2];
        let m2 = ms[k - 1];
        let kind = kinds[k - 1];
        assert(circle_step(m, id, es[k - 1], m2, kind));
        lemma_step_conserves(m, id, es[k - 1], m2, kind);
    }
}

proof fn lemma_step_conserves(m: RecordModel, id: u32, effects: Seq<Effect>, m2: RecordModel, kind: int)
    requires
        circle_step(m, id, effects, m2, kind),
        well_formed(m),
        held(m) <= i128::MAX,
    ensures
        held(m) + net_inflow(effects) == held(m2) + if kind == 4 {
            retained(m)
        } else {
            0int
        },
{
    let (a, now, initialized) = choose|a: AccountId, now: u64, initialized: bool|
        #[trigger] all_outcomes(m, id, a, now, initialized)[kind] == (Outcome {
            record: m2,
            result: Ok(effects),
        });
    let os = all_outcomes(m, id, a, now, initialized);
    assert(os[0] == join_outcome(m, id, a, now));
    assert(os[1] == leave_outcome(m, a));
    assert(os[2] == cancel_outcome(m, id, a));
    assert(os[3] == contribute_outcome(m, id, a));
    assert(os[4] == settle_outcome(m, id, now, initialized));
    lemma_open_phase_conserves_escrow(m, id, a, now);
    lemma_settle_conserves_escrow(m, id, now, initialized);
}

/// What one successful call does to the id counter: `create_circle` hands
/// out the current count as the new id and raises the count by one; every
/// other call leaves it alone.
pub open spec fn counter_step(count: u32, handed: Option<u32>, next: u32) -> bool {
    match handed {
        Some(id) => id == count && next == count + 1,
        None => next == count,
    }
}

/// The ids handed out, in order.
pub open spec fn ids_handed_out(handed: Seq<Option<u32>>) -> Seq<u32>
    decreases handed.len(),
{
    if handed.len() == 0 {
        Seq::empty()
    } else {
        let rest = ids_handed_out(handed.drop_last());
        match handed.last() {
            Some(id) => rest.push(id),
            None => rest,
        }
    }
}

/// Ids count up from zero: after `initialize` (count 0), the ids that a
/// sequence of calls hands out are exactly `0, 1, ..., total_circles() - 1`,
/// each once, in order.
pub proof fn lemma_ids_count_up(counts: Seq<u32>, handed: Seq<Option<u32>>)
    requires
        counts.len() == handed.len() + 1,
        counts[0] == 0,
        forall|i: int|
            0 <= i < handed.len() ==> counter_step(counts[i], #[trigger] handed[i], counts[i + 1]),
    ensures
        ids_handed_out(handed) == Seq::new(counts.last() as nat, |j: int| j as u32),
    decreases handed.len(),
{
    if handed.len() > 0 {
        let n = handed.len();
        assert(counter_step(counts[n - 1], handed[n - 1], counts[n as int]));
        lemma_ids_count_up(counts.drop_last(), handed.drop_last());
        assert(counts.drop_last().last() == counts[n - 1]);
        assert(ids_handed_out(handed) =~= Seq::new(counts.last() as nat, |j: int| j as u32));
    } else {
        assert(ids_handed_out(handed) =~= Seq::new(counts.last() as nat, |j: int| j as u32));
    }
}

/// Calls on one circle never touch the id counter.
pub proof fn lemma_circle_calls_keep_counter(
    old_m: ContractModel,
    new_m: ContractModel,
    r: Result<Vec<Effect>, Error>,
    id: u32,
    o: Outcome,
)
    requires
        contract_step(old_m, new_m, r, id, o),
    ensures
        new_m.count == old_m.count,
        new_m.config == old_m.config,
{
}

/// Settlement is permissionless: its outcome is fixed by the circle, by
/// whether the contract is initialized and by the time. No caller enters
/// it, and neither the admin nor the registry's address changes it.
pub proof fn lemma_settlement_ignores_invoker(m1: ContractModel, m2: ContractModel, id: u32, now: u64)
    requires
        id < m1.circles.len(),
        id < m2.circles.len(),
        m1.circles[id as int] == m2.circles[id as int],
        m1.config is Some <==> m2.config is Some,
    ensures
        settle_outcome(m1.circles[id as int], id, now, m1.config is Some) == settle_outcome(
            m2.circles[id as int],
            id,
            now,
            m2.config is Some,
        ),
{
}

// ---- What each operation does, in terms of its inputs ----------------------------

/// A cycle is due exactly when every member who has not defaulted has paid
/// or the deadline `started_at + (current_cycle + 1) * period_secs` has
/// passed: an Active circle fails with `NotDue` if and only if some member
/// in good standing has not paid and `now` is not past that deadline.
/// Defaulted members never hold a cycle up.
pub proof fn lemma_due_when_active_members_paid(m: RecordModel, id: u32, now: u64, initialized: bool)
    requires
        m.circle.status == CircleStatus::Active,
    ensures
        (settle_outcome(m, id, now, initialized).result == Err::<Seq<Effect>, Error>(Error::NotDue))
            <==> ((exists|i: int|
            0 <= i < m.members.len() && !(#[trigger] m.members[i]).state.defaulted
                && !m.members[i].paid) && now <= m.circle.started_at + (m.circle.current_cycle + 1)
            * m.circle.period_secs),
        initialized && (forall|i: int|
            0 <= i < m.members.len() ==> (#[trigger] m.members[i]).state.defaulted
                || m.members[i].paid) ==> settle_outcome(m, id, now, initialized).result is Ok,
{
}

/// A new circle records exactly the arguments it was opened with: its
/// creator, the token it runs in, the amounts, size and period, Open with
/// no start time and cycle 0, and the creator as its only member with the
/// whole deposit in escrow.
pub proof fn lemma_open_records_its_arguments(
    creator: AccountId,
    token: AccountId,
    contribution: i128,
    deposit: i128,
    size: u32,
    period_secs: u64,
)
    ensures
        ({
            let m = opened(creator, token, contribution, deposit, size, period_secs);
            &&& m.circle.creator == creator
            &&& m.circle.token == token
            &&& m.circle.contribution == contribution
            &&& m.circle.deposit == deposit
            &&& m.circle.size == size
            &&& m.circle.period_secs == period_secs
            &&& m.circle.status == CircleStatus::Open
            &&& m.circle.started_at == 0
            &&& m.circle.current_cycle == 0
            &&& m.members.len() == 1
            &&& m.members[0].member == creator
            &&& m.members[0].state.deposit_remaining == deposit
            &&& !m.members[0].state.received
            &&& !m.members[0].state.defaulted
            &&& !m.members[0].paid
        }),
{
}

/// The deadline moves on by one period with every settled cycle, and the
/// first one falls one period after activation.
pub proof fn lemma_deadline_moves_one_period_per_cycle(
    m: RecordModel,
    id: u32,
    a: AccountId,
    now: u64,
    initialized: bool,
)
    requires
        well_formed(m),
    ensures
        ({
            let o = settle_outcome(m, id, now, initialized);
            o.result is Ok && o.record.circle.status == CircleStatus::Active ==> {
                &&& o.record.circle.started_at == m.circle.started_at
                &&& o.record.circle.period_secs == m.circle.period_secs
                &&& o.record.circle.current_cycle == m.circle.current_cycle + 1
                &&& o.record.circle.started_at + (o.record.circle.current_cycle + 1)
                    * o.record.circle.period_secs == m.circle.started_at + (m.circle.current_cycle
                    + 1) * m.circle.period_secs + m.circle.period_secs
            }
        }),
        ({
            let o = join_outcome(m, id, a, now);
            o.result is Ok && o.record.circle.status == CircleStatus::Active ==> {
                &&& o.record.circle.started_at == now
                &&& o.record.circle.current_cycle == 0
                &&& o.record.circle.started_at + (o.record.circle.current_cycle + 1)
                    * o.record.circle.period_secs == now + m.circle.period_secs
            }
        }),
{
    let o = settle_outcome(m, id, now, initialized);
    if o.result is Ok && o.record.circle.status == CircleStatus::Active {
        crate::settle::lemma_settle_preserves_wf(m, id, now, initialized);
        let c = o.record.circle;
        assert((c.current_cycle + 1) * c.period_secs == (m.circle.current_cycle + 1)
            * m.circle.period_secs + m.circle.period_secs) by (nonlinear_arith)
            requires
                c.current_cycle == m.circle.current_cycle + 1,
                c.period_secs == m.circle.period_secs,
        ;
    }
    let oj = join_outcome(m, id, a, now);
    if oj.result is Ok && oj.record.circle.status == CircleStatus::Active {
        let c = oj.record.circle;
        assert(c.current_cycle == 0);
        assert((c.current_cycle + 1) * c.period_secs == c.period_secs) by (nonlinear_arith)
            requires
                c.current_cycle == 0,
        ;
    }
}

/// Leaving removes exactly the leaver's slot: the leaver held some slot
/// `i`, the members afterwards are the old ones without slot `i`, in the
/// same order, the leaver is no longer among them, and the only transfer
/// is the leaver's bond coming back.
pub proof fn lemma_leave_removes_exactly_the_leaver(m: RecordModel, a: AccountId)
    requires
        well_formed(m),
        leave_outcome(m, a).result is Ok,
    ensures
        ({
            let t = leave_outcome(m, a).record.members;
            &&& exists|i: int|
                0 <= i < m.members.len() && (#[trigger] m.members[i]).member == a && t
                    == m.members.remove(i) && leave_outcome(m, a).result == Ok::<Seq<Effect>, Error>(
                    if m.members[i].state.deposit_remaining > 0 {
                        seq![Effect::Pay { to: a, amount: m.members[i].state.deposit_remaining }]
                    } else {
                        Seq::empty()
                    },
                )
            &&& t.len() + 1 == m.members.len()
            &&& forall|j: int| 0 <= j < t.len() ==> (#[trigger] t[j]).member != a
            &&& leave_outcome(m, a).record.circle == m.circle
        }),
{
    let s = m.members;
    lemma_position_of(s, a);
    let i = position_of(s, a);
    lemma_without_is_remove(s, i);
    let t = s.remove(i);
    assert forall|j: int| 0 <= j < t.len() implies (#[trigger] t[j]).member != a by {
        let j2 = if j < i { j } else { j + 1 };
        assert(t[j] == s[j2]);
    }
    assert(s[i].member == a);
}

/// `get_members` lists one address per slot: as many as there are
/// members, the `i`-th being the address in slot `i`.
pub proof fn lemma_member_ids_list_every_slot(s: Seq<MemberEntry>)
    ensures
        member_ids(s).len() == s.len(),
        forall|i: int| 0 <= i < s.len() ==> member_ids(s)[i] == (#[trigger] s[i]).member,
{
}

/// The member list is the join order and nothing else changes it: joining
/// appends the new member, while contributing and settling (defaults
/// included) leave the list as it was.
pub proof fn lemma_member_list_is_the_join_order(
    m: RecordModel,
    id: u32,
    a: AccountId,
    now: u64,
    initialized: bool,
)
    ensures
        join_outcome(m, id, a, now).result is Ok ==> member_ids(join_outcome(m, id, a, now).record.members)
            == member_ids(m.members).push(a),
        contribute_outcome(m, id, a).result is Ok ==> member_ids(
            contribute_outcome(m, id, a).record.members,
        ) == member_ids(m.members),
        settle_outcome(m, id, now, initialized).result is Ok ==> member_ids(
            settle_outcome(m, id, now, initialized).record.members,
        ) == member_ids(m.members),
{
    let oj = join_outcome(m, id, a, now);
    if oj.result is Ok {
        assert(member_ids(oj.record.members) =~= member_ids(m.members).push(a));
    }
    let oc = contribute_outcome(m, id, a);
    if oc.result is Ok {
        lemma_position_of(m.members, a);
        assert(member_ids(oc.record.members) =~= member_ids(m.members));
    }
    let os = settle_outcome(m, id, now, initialized);
    if os.result is Ok {
        let c = m.circle.contribution;
        let s1 = collected(m.members, c);
        lemma_recipient_index(s1);
        assert(member_ids(os.record.members) =~= member_ids(m.members));
    }
}


/// Joining an Open circle that has room and does not hold the joiner yet
/// succeeds and appends the joiner at the end of the join order with the
/// full deposit as bond, collected from the joiner; everyone already there
/// keeps their slot. The circle starts, at `now`, exactly when it becomes
/// full. Otherwise the call fails and changes nothing: `BadStatus` when not
/// Open, `AlreadyMember` for a member, `CircleFull` when full.
pub proof fn lemma_join_appends_the_joiner(m: RecordModel, id: u32, a: AccountId, now: u64)
    ensures
        ({
            let o = join_outcome(m, id, a, now);
            let n = m.members.len();
            let listed = exists|i: int| 0 <= i < n && (#[trigger] m.members[i]).member == a;
            &&& m.circle.status != CircleStatus::Open ==> o.result == Err::<Seq<Effect>, Error>(
                Error::BadStatus,
            ) && o.record == m
            &&& m.circle.status == CircleStatus::Open && listed ==> o.result == Err::<
                Seq<Effect>,
                Error,
            >(Error::AlreadyMember) && o.record == m
            &&& m.circle.status == CircleStatus::Open && !listed && n >= m.circle.size ==> o.result
                == Err::<Seq<Effect>, Error>(Error::CircleFull) && o.record == m
            &&& m.circle.status == CircleStatus::Open && !listed && n < m.circle.size ==> {
                &&& o.result is Ok
                &&& o.record.members.len() == n + 1
                &&& forall|j: int| 0 <= j < n ==> o.record.members[j] == m.members[j]
                &&& o.record.members[n as int].member == a
                &&& o.record.members[n as int].state.deposit_remaining == m.circle.deposit
                &&& !o.record.members[n as int].state.received
                &&& !o.record.members[n as int].state.defaulted
                &&& !o.record.members[n as int].paid
                &&& o.record.circle.creator == m.circle.creator
                &&& o.record.circle.token == m.circle.token
                &&& o.record.circle.contribution == m.circle.contribution
                &&& o.record.circle.deposit == m.circle.deposit
                &&& o.record.circle.size == m.circle.size
                &&& o.record.circle.period_secs == m.circle.period_secs
                &&& o.record.circle.current_cycle == m.circle.current_cycle
                &&& (n + 1 == m.circle.size ==> o.record.circle.status == CircleStatus::Active
                    && o.record.circle.started_at == now)
                &&& (n + 1 < m.circle.size ==> o.record.circle == m.circle)
                &&& m.circle.deposit > 0 ==> o.result->Ok_0[0] == Effect::Collect {
                    from: a,
                    amount: m.circle.deposit,
                }
                &&& o.result->Ok_0.contains(Effect::Publish(CircleEvent::Join { id, member: a }))
            }
        }),
{
    let o = join_outcome(m, id, a, now);
    let n = m.members.len();
    if exists|i: int| 0 <= i < n && (#[trigger] m.members[i]).member == a {
        let i = choose|i: int| 0 <= i < n && (#[trigger] m.members[i]).member == a;
        assert(has_member(m.members, a));
    }
    if m.circle.status == CircleStatus::Open && !has_member(m.members, a) && n < m.circle.size {
        let col = collect_if_positive(a, m.circle.deposit);
        let ev = Effect::Publish(CircleEvent::Join { id, member: a });
        let eff = o.result->Ok_0;
        assert(eff[col.len() as int] == ev);
    }
}

/// A contribution is taken from the contributor, for exactly the circle's
/// contribution, and marks that member's slot as paid for this cycle; no
/// other slot and nothing of the circle changes. It is refused, changing
/// nothing, when the circle is not Active (`BadStatus`), from a non-member
/// (`NotMember`), from a defaulted member (`Defaulted`) and from one who
/// has already paid this cycle (`AlreadyPaid`).
pub proof fn lemma_contribution_marks_the_contributor(m: RecordModel, id: u32, a: AccountId)
    requires
        well_formed(m),
    ensures
        ({
            let o = contribute_outcome(m, id, a);
            let n = m.members.len();
            &&& m.circle.status != CircleStatus::Active ==> o.result == Err::<Seq<Effect>, Error>(
                Error::BadStatus,
            ) && o.record == m
            &&& m.circle.status == CircleStatus::Active && (forall|i: int|
                0 <= i < n ==> (#[trigger] m.members[i]).member != a) ==> o.result == Err::<
                Seq<Effect>,
                Error,
            >(Error::NotMember) && o.record == m
            &&& forall|i: int|
                0 <= i < n && (#[trigger] m.members[i]).member == a && m.circle.status
                    == CircleStatus::Active ==> {
                    &&& m.members[i].state.defaulted ==> o.result == Err::<Seq<Effect>, Error>(
                        Error::Defaulted,
                    ) && o.record == m
                    &&& !m.members[i].state.defaulted && m.members[i].paid ==> o.result == Err::<
                        Seq<Effect>,
                        Error,
                    >(Error::AlreadyPaid) && o.record == m
                    &&& !m.members[i].state.defaulted && !m.members[i].paid ==> {
                        &&& o.result is Ok
                        &&& o.result->Ok_0[0] == Effect::Collect {
                            from: a,
                            amount: m.circle.contribution,
                        }
                        &&& o.record.circle == m.circle
                        &&& o.record.members.len() == n
                        &&& o.record.members[i].paid
                        &&& o.record.members[i].member == a
                        &&& o.record.members[i].state == m.members[i].state
                        &&& forall|j: int|
                            0 <= j < n && j != i ==> o.record.members[j] == m.members[j]
                    }
                }
        }),
{
    let n = m.members.len();
    if exists|i: int| 0 <= i < n && (#[trigger] m.members[i]).member == a {
        lemma_position_of(m.members, a);
        let p = position_of(m.members, a);
        assert forall|i: int| 0 <= i < n && (#[trigger] m.members[i]).member == a implies i == p by {
            if i != p {
                assert(m.members[i].member != m.members[p].member);
            }
        }
    } else {
        assert(!has_member(m.members, a));
    }
}

/// Only the creator can cancel, and only an Open circle: the circle turns
/// Cancelled with its members as they were, and every member whose bond is
/// positive gets exactly that bond back.
pub proof fn lemma_cancel_refunds_every_bond(m: RecordModel, id: u32, caller: AccountId)
    ensures
        ({
            let o = cancel_outcome(m, id, caller);
            &&& caller != m.circle.creator ==> o.result == Err::<Seq<Effect>, Error>(
                Error::NotCreator,
            ) && o.record == m
            &&& caller == m.circle.creator && m.circle.status != CircleStatus::Open ==> o.result
                == Err::<Seq<Effect>, Error>(Error::BadStatus) && o.record == m
            &&& caller == m.circle.creator && m.circle.status == CircleStatus::Open ==> {
                &&& o.result is Ok
                &&& o.record.circle.status == CircleStatus::Cancelled
                &&& o.record.members == m.members
                &&& forall|i: int|
                    0 <= i < m.members.len() && (#[trigger] m.members[i]).state.deposit_remaining > 0
                        ==> o.result->Ok_0.contains(
                        Effect::Pay {
                            to: m.members[i].member,
                            amount: m.members[i].state.deposit_remaining,
                        },
                    )
            }
        }),
{
    let o = cancel_outcome(m, id, caller);
    if caller == m.circle.creator && m.circle.status == CircleStatus::Open {
        let s = m.members;
        assert forall|i: int|
            0 <= i < s.len() && (#[trigger] s[i]).state.deposit_remaining > 0 implies o.result->Ok_0.contains(
            Effect::Pay { to: s[i].member, amount: s[i].state.deposit_remaining },
        ) by {
            lemma_bond_refunds_contain(s, i, s.len());
            let b = bond_refunds(s, s.len());
            let eff = b + seq![Effect::Publish(CircleEvent::Cancel { id })];
            let x = Effect::Pay { to: s[i].member, amount: s[i].state.deposit_remaining };
            let k = choose|k: int| 0 <= k < b.len() && b[k] == x;
            assert(eff[k] == x);
        }
    }
}

proof fn lemma_bond_refunds_contain(s: Seq<MemberEntry>, i: int, k: nat)
    requires
        0 <= i < k <= s.len(),
        s[i].state.deposit_remaining > 0,
    ensures
        bond_refunds(s, k).contains(
            Effect::Pay { to: s[i].member, amount: s[i].state.deposit_remaining },
        ),
    decreases k,
{
    let x = Effect::Pay { to: s[i].member, amount: s[i].state.deposit_remaining };
    let prev = bond_refunds(s, (k - 1) as nat);
    let last = pay_if_positive(s[k - 1].member, s[k - 1].state.deposit_remaining);
    if i < k - 1 {
        lemma_bond_refunds_contain(s, i, (k - 1) as nat);
        let j = choose|j: int| 0 <= j < prev.len() && prev[j] == x;
        assert((prev + last)[j] == x);
    } else {
        assert((prev + last)[prev.len() as int] == x);
    }
}

/// Who is paid when a cycle settles. Call a slot in line when its member
/// has not been paid out, has not defaulted, and either paid this cycle or
/// has a bond that covers the contribution (a member who missed with a
/// smaller bond defaults now). The first slot in line, in join order,
/// receives the whole pot, with a `Payout` event and, when the pot is
/// positive, a transfer of it; every slot ahead of it is out of line. If
/// no slot is in line, nobody is marked paid out.
pub proof fn lemma_settle_pays_first_in_line(m: RecordModel, id: u32, now: u64, initialized: bool)
    requires
        well_formed(m),
        held(m) <= i128::MAX,
        settle_outcome(m, id, now, initialized).result is Ok,
    ensures
        ({
            let o = settle_outcome(m, id, now, initialized);
            let eff = o.result->Ok_0;
            let s = m.members;
            let c = m.circle.contribution;
            let n = s.len();
            let pot = pot_prefix(s, c, n);
            &&& o.record.members.len() == n
            &&& (exists|j: int|
                0 <= j < n && !(#[trigger] s[j]).state.received && !s[j].state.defaulted && (
                s[j].paid || s[j].state.deposit_remaining >= c)) ==> exists|k: int|
                0 <= k < n && !(#[trigger] s[k]).state.received && !s[k].state.defaulted && (
                s[k].paid || s[k].state.deposit_remaining >= c) && (forall|j: int|
                    0 <= j < k ==> (#[trigger] s[j]).state.received || s[j].state.defaulted || (
                    !s[j].paid && s[j].state.deposit_remaining < c)) && o.record.members[k].state.received
                    && eff.contains(
                    Effect::Publish(
                        CircleEvent::Payout {
                            id,
                            recipient: s[k].member,
                            amount: pot as i128,
                            cycle: m.circle.current_cycle,
                        },
                    ),
                ) && (pot > 0 ==> eff.contains(Effect::Pay { to: s[k].member, amount: pot as i128 }))
            &&& (forall|j: int|
                0 <= j < n ==> (#[trigger] s[j]).state.received || s[j].state.defaulted || (
                !s[j].paid && s[j].state.deposit_remaining < c)) ==> forall|j: int|
                0 <= j < n ==> (#[trigger] o.record.members[j]).state.received == s[j].state.received
        }),
{
    let s = m.members;
    let c = m.circle.contribution;
    let n = s.len();
    let s1 = collected(s, c);
    let pot = pot_prefix(s, c, n);
    lemma_settle_shape(m, id, now, initialized);
    lemma_recipient_index(s1);
    lemma_in_line_is_eligible(m);
    let k = recipient_index(s1);
    let o = settle_outcome(m, id, now, initialized);
    let eff = o.result->Ok_0;
    if k < n {
        assert(is_eligible(s1[k]));
        assert forall|j: int| 0 <= j < k implies (#[trigger] s[j]).state.received || s[j].state.defaulted
            || (!s[j].paid && s[j].state.deposit_remaining < c) by {
            assert(!is_eligible(s1[j]));
        }
        assert(o.record.members[k].state.received);
        assert(0 <= k < n && !s[k].state.received && !s[k].state.defaulted && (s[k].paid
            || s[k].state.deposit_remaining >= c) && (forall|j: int|
            0 <= j < k ==> (#[trigger] s[j]).state.received || s[j].state.defaulted || (!s[j].paid
                && s[j].state.deposit_remaining < c)) && o.record.members[k].state.received
            && eff.contains(
            Effect::Publish(
                CircleEvent::Payout {
                    id,
                    recipient: s[k].member,
                    amount: pot as i128,
                    cycle: m.circle.current_cycle,
                },
            ),
        ) && (pot > 0 ==> eff.contains(Effect::Pay { to: s[k].member, amount: pot as i128 })));
    } else {
        assert forall|j: int| 0 <= j < n implies !(!(#[trigger] s[j]).state.received && !s[j].state.defaulted
            && (s[j].paid || s[j].state.deposit_remaining >= c)) by {
            assert(!is_eligible(s1[j]));
        }
        assert forall|j: int| 0 <= j < n implies (#[trigger] o.record.members[j]).state.received
            == s[j].state.received by {}
    }
}

/// Where a settlement's payout stands among its effects, and which slots it
/// marks as paid out.
proof fn lemma_settle_shape(m: RecordModel, id: u32, now: u64, initialized: bool)
    requires
        well_formed(m),
        held(m) <= i128::MAX,
        settle_outcome(m, id, now, initialized).result is Ok,
    ensures
        ({
            let o = settle_outcome(m, id, now, initialized);
            let eff = o.result->Ok_0;
            let s = m.members;
            let c = m.circle.contribution;
            let n = s.len();
            let s1 = collected(s, c);
            let k = recipient_index(s1);
            let pot = pot_prefix(s, c, n);
            &&& 0 <= pot <= i128::MAX
            &&& s1.len() == n
            &&& o.record.members.len() == n
            &&& forall|j: int|
                0 <= j < n ==> (#[trigger] o.record.members[j]).state.received == (s[j].state.received
                    || j == k)
            &&& k < n ==> {
                &&& eff.contains(
                    Effect::Publish(
                        CircleEvent::Payout {
                            id,
                            recipient: s[k].member,
                            amount: pot as i128,
                            cycle: m.circle.current_cycle,
                        },
                    ),
                )
                &&& pot > 0 ==> eff.contains(Effect::Pay { to: s[k].member, amount: pot as i128 })
            }
        }),
{
    let o = settle_outcome(m, id, now, initialized);
    let eff = o.result->Ok_0;
    let s = m.members;
    let c = m.circle.contribution;
    let n = s.len();
    let s1 = collected(s, c);
    let s2 = after_payout(s1);
    let pot = pot_prefix(s, c, n);
    crate::settle::lemma_settle_entries(m);
    lemma_recipient_index(s1);
    assert forall|i: int| 0 <= i < s.len() implies (#[trigger] s[i]).state.deposit_remaining >= 0 by {
        assert(entry_ok(s[i], m.circle));
    }
    lemma_pot_bounds(s, c, n);
    let k = recipient_index(s1);
    assert forall|j: int| 0 <= j < n implies (#[trigger] o.record.members[j]).state.received
        == s2[j].state.received by {
        assert(entry_ok(s2[j], m.circle));
    }
    assert forall|j: int| 0 <= j < n implies s2[j].state.received == (s[j].state.received || j == k) by {
        assert(s1[j] == collect_entry(s[j], c));
    }
    if k < n {
        let first = collect_effects_prefix(s, id, c, n);
        let pay = pay_if_positive(s1[k].member, pot as i128);
        let ev = Effect::Publish(
            CircleEvent::Payout { id, recipient: s[k].member, amount: pot as i128, cycle: m.circle.current_cycle },
        );
        let pe = payout_effects(s1, payers_prefix(s, n), id, c, pot, m.circle.current_cycle);
        assert(pe == pay + seq![ev]);
        assert(eff[(first.len() + pay.len()) as int] == ev);
        if pot > 0 {
            assert(eff[first.len() as int] == Effect::Pay { to: s[k].member, amount: pot as i128 });
        }
    }
}

/// After collection, a slot is still owed a payout exactly when it is in
/// line in the sense of `lemma_settle_pays_first_in_line`.
proof fn lemma_in_line_is_eligible(m: RecordModel)
    requires
        well_formed(m),
    ensures
        ({
            let s = m.members;
            let c = m.circle.contribution;
            let s1 = collected(s, c);
            &&& s1.len() == s.len()
            &&& forall|j: int|
                0 <= j < s.len() ==> is_eligible(#[trigger] s1[j]) == (!s[j].state.received
                    && !s[j].state.defaulted && (s[j].paid || s[j].state.deposit_remaining >= c))
        }),
{
    let s = m.members;
    let c = m.circle.contribution;
    let s1 = collected(s, c);
    assert forall|j: int| 0 <= j < s.len() implies is_eligible(#[trigger] s1[j]) == (!s[j].state.received
        && !s[j].state.defaulted && (s[j].paid || s[j].state.deposit_remaining >= c)) by {
        assert(s1[j] == collect_entry(s[j], c));
        assert(entry_ok(s[j], m.circle));
    }
}

/// A settlement completes the circle exactly when at most one slot was in
/// line (see `lemma_settle_pays_first_in_line`), that is when nobody is
/// left owed a payout after this one; otherwise the circle stays Active.
pub proof fn lemma_settle_completes_when_line_is_empty(m: RecordModel, id: u32, now: u64, initialized: bool)
    requires
        well_formed(m),
        settle_outcome(m, id, now, initialized).result is Ok,
    ensures
        ({
            let o = settle_outcome(m, id, now, initialized);
            let s = m.members;
            let c = m.circle.contribution;
            let n = s.len();
            &&& (o.record.circle.status == CircleStatus::Completed) <==> (forall|i: int, j: int|
                0 <= i < n && 0 <= j < n && !(#[trigger] s[i]).state.received && !s[i].state.defaulted
                    && (s[i].paid || s[i].state.deposit_remaining >= c) && !(#[trigger] s[j]).state.received
                    && !s[j].state.defaulted && (s[j].paid || s[j].state.deposit_remaining >= c) ==> i
                    == j)
            &&& o.record.circle.status == CircleStatus::Completed || o.record.circle.status
                == CircleStatus::Active
        }),
{
    let s = m.members;
    let c = m.circle.contribution;
    let n = s.len();
    let s1 = collected(s, c);
    let s2 = after_payout(s1);
    lemma_recipient_index(s1);
    lemma_in_line_is_eligible(m);
    let k = recipient_index(s1);
    let o = settle_outcome(m, id, now, initialized);
    assert(o.record.circle.status == CircleStatus::Completed <==> all_settled(s2));
    let at_most_one = forall|i: int, j: int|
        0 <= i < n && 0 <= j < n && !(#[trigger] s[i]).state.received && !s[i].state.defaulted
            && (s[i].paid || s[i].state.deposit_remaining >= c) && !(#[trigger] s[j]).state.received
            && !s[j].state.defaulted && (s[j].paid || s[j].state.deposit_remaining >= c) ==> i == j;
    if k < n {
        assert forall|j: int| 0 <= j < n && j != k implies s2[j] == s1[j] by {}
        assert(!is_eligible(s2[k]));
        if all_settled(s2) {
            assert forall|i: int, j: int|
                0 <= i < n && 0 <= j < n && !(#[trigger] s[i]).state.received && !s[i].state.defaulted
                    && (s[i].paid || s[i].state.deposit_remaining >= c) && !(#[trigger] s[j]).state.received
                    && !s[j].state.defaulted && (s[j].paid || s[j].state.deposit_remaining >= c) implies i
                == j by {
                assert(is_eligible(s1[i]) && is_eligible(s1[j]));
                if i != k {
                    assert(!is_eligible(s2[i]));
                }
                if j != k {
                    assert(!is_eligible(s2[j]));
                }
            }
            assert(at_most_one);
        } else {
            let j = choose|j: int| 0 <= j < n && !!is_eligible(#[trigger] s2[j]);
            assert(j != k);
            assert(is_eligible(s1[j]) && is_eligible(s1[k]));
            assert(!at_most_one);
        }
    } else {
        assert(s2 == s1);
        assert(all_settled(s2));
        assert forall|i: int, j: int|
            0 <= i < n && 0 <= j < n && !(#[trigger] s[i]).state.received && !s[i].state.defaulted
                && (s[i].paid || s[i].state.deposit_remaining >= c) && !(#[trigger] s[j]).state.received
                && !s[j].state.defaulted && (s[j].paid || s[j].state.deposit_remaining >= c) implies i
            == j by {
            assert(is_eligible(s1[i]));
        }
        assert(at_most_one);
    }
}

/// What a settlement does to each slot. Nobody changes slot, and every
/// mark of payment for the cycle is cleared. A member who had defaulted
/// stays so with the same bond. A member who paid keeps the bond. A member
/// who missed loses the contribution from the bond when the bond covers it
/// (with a `Slash` event); otherwise the bond is used up, the member
/// defaults, and the settlement publishes the default and reports it to
/// the registry. When the circle completes, every member in good standing
/// has a bond of zero left; while it runs on, the bonds are as just said.
pub proof fn lemma_settle_treats_each_slot(m: RecordModel, id: u32, now: u64, initialized: bool)
    requires
        well_formed(m),
        settle_outcome(m, id, now, initialized).result is Ok,
    ensures
        ({
            let o = settle_outcome(m, id, now, initialized);
            let eff = o.result->Ok_0;
            let s = m.members;
            let t = o.record.members;
            let c = m.circle.contribution;
            let running = o.record.circle.status == CircleStatus::Active;
            &&& t.len() == s.len()
            &&& forall|j: int|
                0 <= j < s.len() ==> {
                    &&& (#[trigger] t[j]).member == s[j].member
                    &&& !t[j].paid
                    &&& (s[j].state.defaulted ==> t[j].state.defaulted
                        && t[j].state.deposit_remaining == s[j].state.deposit_remaining)
                    &&& (!s[j].state.defaulted && s[j].paid ==> !t[j].state.defaulted && (running
                        ==> t[j].state.deposit_remaining == s[j].state.deposit_remaining))
                    &&& (!s[j].state.defaulted && !s[j].paid && s[j].state.deposit_remaining >= c
                        ==> !t[j].state.defaulted && (running ==> t[j].state.deposit_remaining
                        == s[j].state.deposit_remaining - c) && eff.contains(
                        Effect::Publish(CircleEvent::Slash { id, member: s[j].member, amount: c }),
                    ))
                    &&& (!s[j].state.defaulted && !s[j].paid && s[j].state.deposit_remaining < c
                        ==> t[j].state.defaulted && t[j].state.deposit_remaining == 0 && eff.contains(
                        Effect::Publish(CircleEvent::Defaulted { id, member: s[j].member }),
                    ) && eff.contains(Effect::ReportDefault { member: s[j].member }))
                    &&& (!running && !t[j].state.defaulted ==> t[j].state.deposit_remaining == 0)
                }
        }),
{
    let o = settle_outcome(m, id, now, initialized);
    let eff = o.result->Ok_0;
    let s = m.members;
    let n = s.len();
    let c = m.circle.contribution;
    let s1 = collected(s, c);
    let s2 = after_payout(s1);
    let first = collect_effects_prefix(s, id, c, n);
    crate::settle::lemma_settle_entries(m);
    lemma_recipient_index(s1);
    crate::settle::lemma_settle_preserves_wf(m, id, now, initialized);
    assert forall|j: int| 0 <= j < n implies {
        &&& s2[j].state.defaulted == s1[j].state.defaulted
        &&& s2[j].state.deposit_remaining == s1[j].state.deposit_remaining
        &&& (#[trigger] s1[j]) == collect_entry(s[j], c)
    } by {}
    assert forall|j: int| 0 <= j < n implies forall|x: Effect|
        (#[trigger] collect_effects_of(s[j], id, c)).contains(x) ==> eff.contains(x) by {
        lemma_collect_effects_contain(s, id, c, j, n);
        assert forall|x: Effect| collect_effects_of(s[j], id, c).contains(x) implies #[trigger] eff.contains(x) by {
            assert(first.contains(x));
            let i = choose|i: int| 0 <= i < first.len() && first[i] == x;
            assert(eff[i] == x);
        }
    }
    assert forall|j: int| 0 <= j < n implies entry_ok(#[trigger] s[j], m.circle) by {}
    assert forall|j: int|
        0 <= j < n && !s[j].state.defaulted && !s[j].paid && s[j].state.deposit_remaining < c implies {
        &&& collect_effects_of(#[trigger] s[j], id, c).contains(
            Effect::Publish(CircleEvent::Defaulted { id, member: s[j].member }),
        )
        &&& collect_effects_of(s[j], id, c).contains(Effect::ReportDefault { member: s[j].member })
    } by {
        let e = s[j];
        let sl = slash_of(e, c);
        let head: Seq<Effect> = if sl > 0 {
            seq![Effect::Publish(CircleEvent::Slash { id, member: e.member, amount: sl })]
        } else {
            Seq::empty()
        };
        let tail = seq![
            Effect::Publish(CircleEvent::Defaulted { id, member: e.member }),
            Effect::ReportDefault { member: e.member },
        ];
        assert(collect_effects_of(e, id, c) == head + tail);
        assert((head + tail)[head.len() as int] == tail[0]);
        assert((head + tail)[head.len() as int + 1] == tail[1]);
    }
    assert forall|j: int|
        0 <= j < n && !s[j].state.defaulted && !s[j].paid && s[j].state.deposit_remaining >= c implies collect_effects_of(#[trigger] s[j], id, c).contains(
        Effect::Publish(CircleEvent::Slash { id, member: s[j].member, amount: c }),
    ) by {
        let e = s[j];
        let x = Effect::Publish(CircleEvent::Slash { id, member: e.member, amount: c });
        assert(collect_effects_of(e, id, c) == seq![x]);
        assert(seq![x][0] == x);
    }
}

proof fn lemma_collect_effects_contain(s: Seq<MemberEntry>, id: u32, c: i128, j: int, k: nat)
    requires
        0 <= j < k <= s.len(),
    ensures
        forall|x: Effect|
            collect_effects_of(s[j], id, c).contains(x) ==> #[trigger] collect_effects_prefix(
                s,
                id,
                c,
                k,
            ).contains(x),
    decreases k,
{
    let prev = collect_effects_prefix(s, id, c, (k - 1) as nat);
    let last = collect_effects_of(s[k - 1], id, c);
    assert(collect_effects_prefix(s, id, c, k) == prev + last);
    if j < k - 1 {
        lemma_collect_effects_contain(s, id, c, j, (k - 1) as nat);
        assert forall|x: Effect| collect_effects_of(s[j], id, c).contains(x) implies #[trigger] (prev
            + last).contains(x) by {
            assert(prev.contains(x));
            let i = choose|i: int| 0 <= i < prev.len() && prev[i] == x;
            assert((prev + last)[i] == x);
        }
    } else {
        assert forall|x: Effect| collect_effects_of(s[j], id, c).contains(x) implies #[trigger] (prev
            + last).contains(x) by {
            let i = choose|i: int| 0 <= i < last.len() && last[i] == x;
            assert((prev + last)[prev.len() + i] == x);
        }
    }
}

/// When a settlement completes the circle, every member still in good
/// standing gets the bond left after this cycle's collection back (the
/// whole bond for a payer, the bond less the contribution for one who
/// missed) and is reported to the registry as having completed.
pub proof fn lemma_completion_refunds_and_reports(m: RecordModel, id: u32, now: u64, initialized: bool)
    requires
        well_formed(m),
        settle_outcome(m, id, now, initialized).result is Ok,
        settle_outcome(m, id, now, initialized).record.circle.status == CircleStatus::Completed,
    ensures
        ({
            let eff = settle_outcome(m, id, now, initialized).result->Ok_0;
            let s = m.members;
            let c = m.circle.contribution;
            forall|j: int|
                0 <= j < s.len() && !(#[trigger] s[j]).state.defaulted && (s[j].paid
                    || s[j].state.deposit_remaining >= c) ==> {
                    &&& eff.contains(Effect::ReportCompletion { member: s[j].member })
                    &&& s[j].paid && s[j].state.deposit_remaining > 0 ==> eff.contains(
                        Effect::Pay { to: s[j].member, amount: s[j].state.deposit_remaining },
                    )
                    &&& !s[j].paid && s[j].state.deposit_remaining > c ==> eff.contains(
                        Effect::Pay {
                            to: s[j].member,
                            amount: (s[j].state.deposit_remaining - c) as i128,
                        },
                    )
                }
        }),
{
    let o = settle_outcome(m, id, now, initialized);
    let eff = o.result->Ok_0;
    let s = m.members;
    let n = s.len();
    let c = m.circle.contribution;
    let s1 = collected(s, c);
    let s2 = after_payout(s1);
    let first = collect_effects_prefix(s, id, c, n);
    let pe = payout_effects(s1, payers_prefix(s, n), id, c, pot_prefix(s, c, n), m.circle.current_cycle);
    let close = closing_effects_prefix(s2, n);
    crate::settle::lemma_settle_entries(m);
    lemma_recipient_index(s1);
    assert(all_settled(s2));
    assert(eff == first + pe + (close + seq![Effect::Publish(CircleEvent::Complete { id })]));
    assert forall|x: Effect| close.contains(x) implies #[trigger] eff.contains(x) by {
        let i = choose|i: int| 0 <= i < close.len() && close[i] == x;
        assert(eff[first.len() + pe.len() + i] == x);
    }
    assert forall|j: int|
        0 <= j < s.len() && !(#[trigger] s[j]).state.defaulted && (s[j].paid
            || s[j].state.deposit_remaining >= c) implies {
        &&& eff.contains(Effect::ReportCompletion { member: s[j].member })
        &&& s[j].paid && s[j].state.deposit_remaining > 0 ==> eff.contains(
            Effect::Pay { to: s[j].member, amount: s[j].state.deposit_remaining },
        )
        &&& !s[j].paid && s[j].state.deposit_remaining > c ==> eff.contains(
            Effect::Pay { to: s[j].member, amount: (s[j].state.deposit_remaining - c) as i128 },
        )
    } by {
        assert(entry_ok(s[j], m.circle));
        assert(s1[j] == collect_entry(s[j], c));
        let e = s2[j];
        assert(e.member == s[j].member);
        assert(!e.state.defaulted);
        assert(e.state.deposit_remaining == s1[j].state.deposit_remaining);
        lemma_closing_effects_contain(s2, j, n);
        let pay = pay_if_positive(e.member, e.state.deposit_remaining);
        let rep = seq![Effect::ReportCompletion { member: e.member }];
        assert(closing_effects_of(e) == pay + rep);
        assert((pay + rep)[pay.len() as int] == rep[0]);
        assert(closing_effects_of(e).contains(Effect::ReportCompletion { member: e.member }));
        if e.state.deposit_remaining > 0 {
            assert((pay + rep)[0] == Effect::Pay { to: e.member, amount: e.state.deposit_remaining });
            assert(closing_effects_of(e).contains(
                Effect::Pay { to: e.member, amount: e.state.deposit_remaining },
            ));
        }
    }
}

proof fn lemma_closing_effects_contain(s: Seq<MemberEntry>, j: int, k: nat)
    requires
        0 <= j < k <= s.len(),
    ensures
        forall|x: Effect|
            closing_effects_of(s[j]).contains(x) ==> #[trigger] closing_effects_prefix(s, k).contains(x),
    decreases k,
{
    let prev = closing_effects_prefix(s, (k - 1) as nat);
    let last = closing_effects_of(s[k - 1]);
    assert(closing_effects_prefix(s, k) == prev + last);
    if j < k - 1 {
        lemma_closing_effects_contain(s, j, (k - 1) as nat);
        assert forall|x: Effect| closing_effects_of(s[j]).contains(x) implies #[trigger] (prev
            + last).contains(x) by {
            assert(prev.contains(x));
            let i = choose|i: int| 0 <= i < prev.len() && prev[i] == x;
            assert((prev + last)[i] == x);
        }
    } else {
        assert forall|x: Effect| closing_effects_of(s[j]).contains(x) implies #[trigger] (prev
            + last).contains(x) by {
            let i = choose|i: int| 0 <= i < last.len() && last[i] == x;
            assert((prev + last)[prev.len() + i] == x);
        }
    }
}

/// How many slots below `k` paid this cycle while in good standing.
pub open spec fn count_payers(s: Seq<MemberEntry>, k: nat) -> nat
    decreases k,
{
    if k == 0 {
        0
    } else {
        count_payers(s, (k - 1) as nat) + if !s[k - 1].state.defaulted && s[k - 1].paid {
            1nat
        } else {
            0nat
        }
    }
}

/// When a settlement finds nobody left to pay, the members who paid this
/// cycle share the pot: each gets the contribution back plus an equal
/// share of the slashes, and the first of them in join order also gets the
/// rounding remainder.
pub proof fn lemma_no_recipient_refunds_payers(m: RecordModel, id: u32, now: u64, initialized: bool)
    requires
        well_formed(m),
        settle_outcome(m, id, now, initialized).result is Ok,
        forall|j: int|
            0 <= j < m.members.len() ==> (#[trigger] m.members[j]).state.received
                || m.members[j].state.defaulted || (!m.members[j].paid
                && m.members[j].state.deposit_remaining < m.circle.contribution),
        count_payers(m.members, m.members.len()) > 0,
    ensures
        ({
            let eff = settle_outcome(m, id, now, initialized).result->Ok_0;
            let s = m.members;
            let c = m.circle.contribution;
            let p = count_payers(s, s.len()) as int;
            let total = pot_prefix(s, c, s.len()) - c * p;
            let share = total / p;
            let rem = total - share * p;
            forall|j: int|
                0 <= j < s.len() && !(#[trigger] s[j]).state.defaulted && s[j].paid ==> {
                    let amount = c + share + if (forall|l: int|
                        0 <= l < j ==> !(!(#[trigger] s[l]).state.defaulted && s[l].paid)) {
                        rem
                    } else {
                        0
                    };
                    amount > 0 ==> eff.contains(Effect::Pay { to: s[j].member, amount: amount as i128 })
                }
        }),
{
    let o = settle_outcome(m, id, now, initialized);
    let eff = o.result->Ok_0;
    let s = m.members;
    let n = s.len();
    let c = m.circle.contribution;
    let s1 = collected(s, c);
    let pot = pot_prefix(s, c, n);
    let ps = payers_prefix(s, n);
    lemma_payers_listed(s, n);
    let p = ps.len() as int;
    let total = pot - c * p;
    let share = total / p;
    let rem = total - share * p;
    lemma_recipient_index(s1);
    lemma_in_line_is_eligible(m);
    let k = recipient_index(s1);
    if k < n {
        assert(is_eligible(s1[k]));
        assert(false);
    }
    let first = collect_effects_prefix(s, id, c, n);
    let pe = payout_effects(s1, ps, id, c, pot, m.circle.current_cycle);
    assert(pe == refund_prefix(ps, c + share, rem, p as nat));
    assert forall|x: Effect| pe.contains(x) implies #[trigger] eff.contains(x) by {
        let i = choose|i: int| 0 <= i < pe.len() && pe[i] == x;
        assert(eff[first.len() + i] == x);
    }
    assert forall|j: int| 0 <= j < s.len() && !(#[trigger] s[j]).state.defaulted && s[j].paid implies {
        let amount = c + share + if (forall|l: int|
            0 <= l < j ==> !(!(#[trigger] s[l]).state.defaulted && s[l].paid)) {
            rem
        } else {
            0
        };
        amount > 0 ==> eff.contains(Effect::Pay { to: s[j].member, amount: amount as i128 })
    } by {
        let i = choose|i: int|
            0 <= i < ps.len() && ps[i] == s[j].member && (i == 0 <==> forall|l: int|
                0 <= l < j ==> !(!(#[trigger] s[l]).state.defaulted && s[l].paid));
        lemma_refund_contains(ps, c + share, rem, p as nat, i);
    }
}

proof fn lemma_payers_listed(s: Seq<MemberEntry>, k: nat)
    requires
        k <= s.len(),
    ensures
        payers_prefix(s, k).len() == count_payers(s, k),
        forall|j: int|
            0 <= j < k && !(#[trigger] s[j]).state.defaulted && s[j].paid ==> exists|i: int|
                0 <= i < payers_prefix(s, k).len() && payers_prefix(s, k)[i] == s[j].member && (i == 0
                    <==> forall|l: int| 0 <= l < j ==> !(!(#[trigger] s[l]).state.defaulted && s[l].paid)),
    decreases k,
{
    if k > 0 {
        let k1 = (k - 1) as nat;
        lemma_payers_listed(s, k1);
        lemma_payers_empty(s, k1);
        let prev = payers_prefix(s, k1);
        let cur = payers_prefix(s, k);
        assert forall|j: int| 0 <= j < k && !(#[trigger] s[j]).state.defaulted && s[j].paid implies exists|i: int|
            0 <= i < cur.len() && cur[i] == s[j].member && (i == 0 <==> forall|l: int|
                0 <= l < j ==> !(!(#[trigger] s[l]).state.defaulted && s[l].paid)) by {
            if j < k1 {
                let i = choose|i: int|
                    0 <= i < prev.len() && prev[i] == s[j].member && (i == 0 <==> forall|l: int|
                        0 <= l < j ==> !(!(#[trigger] s[l]).state.defaulted && s[l].paid));
                assert(cur[i] == prev[i]);
            } else {
                let i = prev.len() as int;
                assert(cur[i] == s[j].member);
            }
        }
    }
}

proof fn lemma_payers_empty(s: Seq<MemberEntry>, k: nat)
    requires
        k <= s.len(),
    ensures
        payers_prefix(s, k).len() == 0 <==> forall|l: int|
            0 <= l < k ==> !(!(#[trigger] s[l]).state.defaulted && s[l].paid),
    decreases k,
{
    if k > 0 {
        lemma_payers_empty(s, (k - 1) as nat);
    }
}

proof fn lemma_refund_contains(ps: Seq<AccountId>, base: int, rem: int, k: nat, i: int)
    requires
        0 <= i < k <= ps.len(),
    ensures
        base + (if i == 0 { rem } else { 0 }) > 0 ==> refund_prefix(ps, base, rem, k).contains(
            Effect::Pay { to: ps[i], amount: (base + if i == 0 { rem } else { 0 }) as i128 },
        ),
    decreases k,
{
    let prev = refund_prefix(ps, base, rem, (k - 1) as nat);
    let amount = base + if k - 1 == 0 { rem } else { 0int };
    let last: Seq<Effect> = if amount > 0 {
        seq![Effect::Pay { to: ps[k - 1], amount: amount as i128 }]
    } else {
        Seq::empty()
    };
    assert(refund_prefix(ps, base, rem, k) == prev + last);
    let x = Effect::Pay { to: ps[i], amount: (base + if i == 0 { rem } else { 0 }) as i128 };
    if base + (if i == 0 { rem } else { 0 }) > 0 {
        if i < k - 1 {
            lemma_refund_contains(ps, base, rem, (k - 1) as nat, i);
            let j = choose|j: int| 0 <= j < prev.len() && prev[j] == x;
            assert((prev + last)[j] == x);
        } else {
            assert((prev + last)[prev.len() as int] == x);
        }
    }
}

} // verus!
