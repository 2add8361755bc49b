use openajo::circle::CircleContract;
use openajo::reputation::ReputationContract;
use openajo::record::CircleRecord;
use openajo::types::{AccountId, Circle, CircleEvent, CircleStatus, Effect, Error, MemberEntry, MemberState};
use std::collections::HashMap;

const CONTRIB: i128 = 100;
const DEPOSIT: i128 = 150;
const PERIOD: u64 = 3600;

/// The circle contract, the reputation registry it reports to, and a token
/// ledger that carries out the transfers each call asks for.
struct Fixture {
    client: CircleContract,
    rep: ReputationContract,
    balances: HashMap<AccountId, i128>,
    events: Vec<CircleEvent>,
    this: AccountId,
    token: AccountId,
    now: u64,
    members: [AccountId; 3],
}

impl Fixture {
    fn balance(&self, a: &AccountId) -> i128 {
        *self.balances.get(a).unwrap_or(&0)
    }

    fn transfer(&mut self, from: AccountId, to: AccountId, amount: i128) {
        let have = self.balance(&from);
        assert!(have >= amount, "insufficient balance");
        self.balances.insert(from, have - amount);
        let got = self.balance(&to);
        self.balances.insert(to, got + amount);
    }

    fn apply(&mut self, effects: Vec<Effect>) {
        for e in effects {
            match e {
                Effect::Collect { from, amount } => {
                    let this = self.this;
                    self.transfer(from, this, amount);
                }
                Effect::Pay { to, amount } => {
                    let this = self.this;
                    self.transfer(this, to, amount);
                }
                Effect::Publish(ev) => self.events.push(ev),
                Effect::ReportDefault { member } => {
                    self.rep.report_default(self.this, member).unwrap();
                }
                Effect::ReportCompletion { member } => {
                    self.rep.report_completion(self.this, member).unwrap();
                }
            }
        }
    }

    fn run(&mut self, r: Result<Vec<Effect>, Error>) -> Result<(), Error> {
        let effects = r?;
        self.apply(effects);
        Ok(())
    }

    fn create_circle(&mut self, creator: AccountId, size: u32) -> Result<u32, Error> {
        let token = self.token;
        let (id, effects) =
            self.client.create_circle(creator, token, CONTRIB, DEPOSIT, size, PERIOD)?;
        self.apply(effects);
        Ok(id)
    }

    fn join(&mut self, id: u32, m: AccountId) -> Result<(), Error> {
        let now = self.now;
        let r = self.client.join(id, m, now);
        self.run(r)
    }

    fn leave(&mut self, id: u32, m: AccountId) -> Result<(), Error> {
        let r = self.client.leave(id, m);
        self.run(r)
    }

    fn cancel(&mut self, id: u32, m: AccountId) -> Result<(), Error> {
        let r = self.client.cancel(id, m);
        self.run(r)
    }

    fn contribute(&mut self, id: u32, m: AccountId) -> Result<(), Error> {
        let r = self.client.contribute(id, m);
        self.run(r)
    }

    fn settle_cycle(&mut self, id: u32) -> Result<(), Error> {
        let now = self.now;
        let r = self.client.settle_cycle(id, now);
        self.run(r)
    }

    fn completed(&self, m: AccountId) -> u32 {
        self.rep.get_reputation(m).completed
    }

    fn defaulted(&self, m: AccountId) -> u32 {
        self.rep.get_reputation(m).defaulted
    }
}

/// Deploys the registry and the circle contract, allows the circle contract
/// to report, and funds three members with 1_000 units each.
fn setup() -> Fixture {
    let admin = AccountId(1);
    let this = AccountId(2);
    let rep_id = AccountId(3);
    let token = AccountId(4);
    let mut rep = ReputationContract::new();
    rep.initialize(admin).unwrap();
    let mut client = CircleContract::new();
    client.initialize(admin, rep_id).unwrap();
    rep.set_reporter(admin, this, true).unwrap();
    let members = [AccountId(10), AccountId(11), AccountId(12)];
    let mut balances = HashMap::new();
    for m in members.iter() {
        balances.insert(*m, 1_000);
    }
    Fixture { client, rep, balances, events: Vec::new(), this, token, now: 0, members }
}

fn create_full_circle(f: &mut Fixture) -> u32 {
    let [a, b, c] = f.members;
    let id = f.create_circle(a, 3).unwrap();
    f.join(id, b).unwrap();
    f.join(id, c).unwrap();
    id
}

fn advance_past_deadline(f: &mut Fixture, id: u32) {
    let deadline = f.client.cycle_deadline(id).unwrap();
    f.now = deadline + 1;
}

// ---- Happy path -----------------------------------------------------------

#[test]
fn full_lifecycle_3_members_3_cycles() {
    let mut f = setup();
    let [a, _b, _c] = f.members;
    let id = create_full_circle(&mut f);

    assert_eq!(f.client.get_circle(id).unwrap().status, CircleStatus::Active);
    assert_eq!(f.balance(&a), 1_000 - DEPOSIT);

    for cycle in 0..3u32 {
        let members = f.members;
        for m in members.iter() {
            f.contribute(id, *m).unwrap();
        }
        f.settle_cycle(id).unwrap();
        let recipient = f.members[cycle as usize];
        assert!(f.client.get_member(id, recipient).unwrap().received);
    }

    let circle = f.client.get_circle(id).unwrap();
    assert_eq!(circle.status, CircleStatus::Completed);
    let members = f.members;
    for m in members.iter() {
        assert_eq!(f.balance(m), 1_000);
        assert_eq!(f.completed(*m), 1);
        assert_eq!(f.defaulted(*m), 0);
    }
    assert_eq!(f.balance(&f.this), 0);
}

// ---- Slashing and defaults ------------------------------------------------

#[test]
fn deadline_settlement_slashes_and_covers() {
    let mut f = setup();
    let [a, b, c] = f.members;
    let id = create_full_circle(&mut f);

    f.contribute(id, a).unwrap();
    f.contribute(id, b).unwrap();
    advance_past_deadline(&mut f, id);
    f.settle_cycle(id).unwrap();

    let st = f.client.get_member(id, c).unwrap();
    assert_eq!(st.deposit_remaining, DEPOSIT - CONTRIB);
    assert!(!st.defaulted);
    assert_eq!(f.balance(&a), 1_000 - DEPOSIT - CONTRIB + 3 * CONTRIB);
}

#[test]
fn insufficient_deposit_marks_default_and_skips_rotation() {
    let mut f = setup();
    let [a, b, c] = f.members;
    let id = create_full_circle(&mut f);

    f.contribute(id, a).unwrap();
    f.contribute(id, b).unwrap();
    advance_past_deadline(&mut f, id);
    f.settle_cycle(id).unwrap();

    f.contribute(id, a).unwrap();
    f.contribute(id, b).unwrap();
    advance_past_deadline(&mut f, id);
    f.settle_cycle(id).unwrap();

    let st = f.client.get_member(id, c).unwrap();
    assert!(st.defaulted);
    assert_eq!(st.deposit_remaining, 0);
    assert_eq!(f.defaulted(c), 1);

    let circle = f.client.get_circle(id).unwrap();
    assert_eq!(circle.status, CircleStatus::Completed);
    assert!(!st.received);

    assert_eq!(f.balance(&a), 1_100);
    assert_eq!(f.balance(&b), 1_050);
    assert_eq!(f.balance(&c), 850);
    assert_eq!(f.balance(&f.this), 0);
    assert_eq!(f.completed(a), 1);
    assert_eq!(f.completed(b), 1);
    assert_eq!(f.completed(c), 0);
}

#[test]
fn recipient_defaults_after_receiving_loses_deposit() {
    let mut f = setup();
    let [a, b, c] = f.members;
    let id = create_full_circle(&mut f);

    let members = f.members;
    for m in members.iter() {
        f.contribute(id, *m).unwrap();
    }
    f.settle_cycle(id).unwrap();
    assert!(f.client.get_member(id, a).unwrap().received);

    f.contribute(id, b).unwrap();
    f.contribute(id, c).unwrap();
    advance_past_deadline(&mut f, id);
    f.settle_cycle(id).unwrap();
    assert!(!f.client.get_member(id, a).unwrap().defaulted);

    f.contribute(id, b).unwrap();
    f.contribute(id, c).unwrap();
    advance_past_deadline(&mut f, id);
    f.settle_cycle(id).unwrap();

    let st_a = f.client.get_member(id, a).unwrap();
    assert!(st_a.defaulted);
    assert_eq!(st_a.deposit_remaining, 0);
    assert_eq!(f.defaulted(a), 1);
    assert_eq!(f.client.get_circle(id).unwrap().status, CircleStatus::Completed);
}

// ---- Open-phase flows -----------------------------------------------------

#[test]
fn leave_refunds_and_cancel_refunds_all() {
    let mut f = setup();
    let [a, b, c] = f.members;
    let id = f.create_circle(a, 3).unwrap();
    f.join(id, b).unwrap();

    f.leave(id, b).unwrap();
    assert_eq!(f.balance(&b), 1_000);
    assert_eq!(f.client.get_members(id).unwrap().len(), 1);

    f.join(id, c).unwrap();
    f.cancel(id, a).unwrap();
    assert_eq!(f.client.get_circle(id).unwrap().status, CircleStatus::Cancelled);
    assert_eq!(f.balance(&a), 1_000);
    assert_eq!(f.balance(&c), 1_000);
    assert_eq!(f.balance(&f.this), 0);
}

// ---- Error paths ----------------------------------------------------------

#[test]
fn double_join_panics() {
    let mut f = setup();
    let [a, b, _] = f.members;
    let id = f.create_circle(a, 3).unwrap();
    f.join(id, b).unwrap();
    assert_eq!(f.join(id, b), Err(Error::AlreadyMember));
}

#[test]
fn double_contribute_panics() {
    let mut f = setup();
    let id = create_full_circle(&mut f);
    let a = f.members[0];
    f.contribute(id, a).unwrap();
    assert_eq!(f.contribute(id, a), Err(Error::AlreadyPaid));
}

#[test]
fn contribute_after_default_panics() {
    let mut f = setup();
    let [a, b, c] = f.members;
    let id = create_full_circle(&mut f);
    for _ in 0..2 {
        f.contribute(id, a).unwrap();
        f.contribute(id, b).unwrap();
        advance_past_deadline(&mut f, id);
        f.settle_cycle(id).unwrap();
    }
    // Both remaining members have been paid, so the circle has completed
    // and refuses the contribution.
    assert_eq!(f.contribute(id, c), Err(Error::BadStatus));
}

#[test]
fn defaulted_member_cannot_contribute_while_active() {
    let mut client = CircleContract::new();
    client.initialize(AccountId(1), AccountId(3)).unwrap();
    let (a, b, c) = (AccountId(10), AccountId(11), AccountId(12));
    let (id, _) = client.create_circle(a, AccountId(4), 100, 50, 3, 3600).unwrap();
    client.join(id, b, 0).unwrap();
    client.join(id, c, 0).unwrap();
    client.contribute(id, a).unwrap();
    client.contribute(id, b).unwrap();
    client.settle_cycle(id, 3601).unwrap();
    assert!(client.get_member(id, c).unwrap().defaulted);
    assert_eq!(client.get_circle(id).unwrap().status, CircleStatus::Active);
    assert_eq!(client.contribute(id, c), Err(Error::Defaulted));
    client.contribute(id, a).unwrap();
    assert_eq!(client.contribute(id, a), Err(Error::AlreadyPaid));
}

#[test]
fn settle_before_due_panics() {
    let mut f = setup();
    let id = create_full_circle(&mut f);
    let a = f.members[0];
    f.contribute(id, a).unwrap();
    assert_eq!(f.settle_cycle(id), Err(Error::NotDue));
}

#[test]
fn non_creator_cancel_panics() {
    let mut f = setup();
    let [a, b, _] = f.members;
    let id = f.create_circle(a, 3).unwrap();
    f.join(id, b).unwrap();
    assert_eq!(f.cancel(id, b), Err(Error::NotCreator));
}

#[test]
fn creator_leave_panics() {
    let mut f = setup();
    let a = f.members[0];
    let id = f.create_circle(a, 3).unwrap();
    assert_eq!(f.leave(id, a), Err(Error::IsCreator));
}

#[test]
fn create_bad_params_panics() {
    let mut f = setup();
    let a = f.members[0];
    assert_eq!(f.create_circle(a, 1), Err(Error::BadParams));
}

#[test]
fn join_full_circle_panics() {
    let mut f = setup();
    let id = create_full_circle(&mut f);
    let d = AccountId(99);
    assert_eq!(f.join(id, d), Err(Error::BadStatus));
}

// ---- Further cases ----------------------------------------------------------

#[test]
fn error_codes_are_stable() {
    let all = [
        Error::NotInitialized,
        Error::AlreadyInitialized,
        Error::NotFound,
        Error::BadStatus,
        Error::AlreadyMember,
        Error::NotMember,
        Error::CircleFull,
        Error::AlreadyPaid,
        Error::Defaulted,
        Error::NotDue,
        Error::IsCreator,
        Error::BadParams,
        Error::NotCreator,
    ];
    for (i, e) in all.iter().enumerate() {
        assert_eq!(e.code(), i as u32 + 1);
    }
}

#[test]
fn initialize_twice_is_refused() {
    let mut f = setup();
    assert_eq!(f.client.initialize(AccountId(5), AccountId(6)), Err(Error::AlreadyInitialized));
}

#[test]
fn ids_count_up_and_unknown_ids_are_not_found() {
    let mut f = setup();
    let [a, b, _] = f.members;
    assert_eq!(f.client.total_circles(), 0);
    assert_eq!(f.create_circle(a, 3), Ok(0));
    assert_eq!(f.create_circle(b, 2), Ok(1));
    assert_eq!(f.client.total_circles(), 2);
    assert_eq!(f.client.get_circle(2).map(|c| c.size), Err(Error::NotFound));
    assert_eq!(f.join(7, a), Err(Error::NotFound));
    assert_eq!(f.settle_cycle(7), Err(Error::NotFound));
    assert_eq!(f.client.get_members(7), Err(Error::NotFound));
    assert_eq!(f.client.get_member(7, a), Err(Error::NotMember));
    assert_eq!(f.client.cycle_deadline(7), Err(Error::NotFound));
}

#[test]
fn create_escrows_the_deposit_and_publishes() {
    let mut f = setup();
    let a = f.members[0];
    let id = f.create_circle(a, 3).unwrap();
    assert_eq!(f.balance(&a), 1_000 - DEPOSIT);
    assert_eq!(f.balance(&f.this), DEPOSIT);
    assert_eq!(f.events, vec![CircleEvent::Create { id, creator: a }]);
    let circle = f.client.get_circle(id).unwrap();
    assert_eq!(circle.status, CircleStatus::Open);
    assert_eq!(circle.started_at, 0);
    assert_eq!(circle.current_cycle, 0);
    let st = f.client.get_member(id, a).unwrap();
    assert_eq!(st.deposit_remaining, DEPOSIT);
    assert!(!st.received && !st.defaulted);
}

#[test]
fn zero_deposit_moves_no_tokens_at_join() {
    let mut f = setup();
    let [a, b, _] = f.members;
    let token = f.token;
    let (id, effects) = f.client.create_circle(a, token, CONTRIB, 0, 2, PERIOD).unwrap();
    assert_eq!(effects, vec![Effect::Publish(CircleEvent::Create { id, creator: a })]);
    let r = f.client.join(id, b, 0).unwrap();
    assert_eq!(
        r,
        vec![
            Effect::Publish(CircleEvent::Join { id, member: b }),
            Effect::Publish(CircleEvent::Start { id }),
        ]
    );
}

#[test]
fn bad_params_each_rule() {
    let mut f = setup();
    let a = f.members[0];
    let t = f.token;
    assert!(f.client.create_circle(a, t, 0, 10, 3, 3600).is_err());
    assert!(f.client.create_circle(a, t, 10, -1, 3, 3600).is_err());
    assert!(f.client.create_circle(a, t, 10, 10, 1, 3600).is_err());
    assert!(f.client.create_circle(a, t, 10, 10, 3, 3599).is_err());
    assert!(f.client.create_circle(a, t, 10, 0, 2, 3600).is_ok());
}

#[test]
fn activation_stamps_the_start_time_and_deadline() {
    let mut f = setup();
    let [a, b, c] = f.members;
    let id = f.create_circle(a, 3).unwrap();
    f.now = 5_000;
    f.join(id, b).unwrap();
    assert_eq!(f.client.get_circle(id).unwrap().status, CircleStatus::Open);
    f.join(id, c).unwrap();
    let circle = f.client.get_circle(id).unwrap();
    assert_eq!(circle.status, CircleStatus::Active);
    assert_eq!(circle.started_at, 5_000);
    assert_eq!(f.client.cycle_deadline(id), Ok(5_000 + PERIOD));
    assert_eq!(f.events.last(), Some(&CircleEvent::Start { id }));
    assert_eq!(f.client.get_members(id).unwrap(), vec![a, b, c]);
}

#[test]
fn open_phase_errors() {
    let mut f = setup();
    let [a, b, c] = f.members;
    let id = f.create_circle(a, 3).unwrap();
    assert_eq!(f.leave(id, b), Err(Error::NotMember));
    assert_eq!(f.contribute(id, a), Err(Error::BadStatus));
    assert_eq!(f.settle_cycle(id), Err(Error::BadStatus));
    f.join(id, b).unwrap();
    f.join(id, c).unwrap();
    assert_eq!(f.leave(id, b), Err(Error::BadStatus));
    assert_eq!(f.cancel(id, a), Err(Error::BadStatus));
    assert_eq!(f.contribute(id, AccountId(77)), Err(Error::NotMember));
}

#[test]
fn terminal_circles_refuse_everything() {
    let mut f = setup();
    let [a, b, c] = f.members;
    let id = f.create_circle(a, 3).unwrap();
    f.cancel(id, a).unwrap();
    assert_eq!(f.join(id, b), Err(Error::BadStatus));
    assert_eq!(f.cancel(id, a), Err(Error::BadStatus));
    assert_eq!(f.settle_cycle(id), Err(Error::BadStatus));
    assert_eq!(f.contribute(id, c), Err(Error::BadStatus));
}

#[test]
fn create_before_initialize_is_refused() {
    let mut client = CircleContract::new();
    let a = AccountId(10);
    assert_eq!(
        client.create_circle(a, AccountId(4), 100, 150, 2, 3600).map(|(id, _)| id),
        Err(Error::NotInitialized)
    );
    assert_eq!(client.total_circles(), 0);
    assert_eq!(client.get_circle(0).map(|c| c.size), Err(Error::NotFound));
    client.initialize(AccountId(1), AccountId(3)).unwrap();
    assert_eq!(client.create_circle(a, AccountId(4), 100, 150, 2, 3600).map(|(id, _)| id), Ok(0));
    assert_eq!(client.create_circle(a, AccountId(4), 100, 150, 2, 3600).map(|(id, _)| id), Ok(1));
    assert_eq!(client.total_circles(), 2);
}

#[test]
fn settlement_needs_initialization() {
    let (a, b) = (AccountId(10), AccountId(11));
    assert_eq!(
        CircleRecord::open(0, false, a, AccountId(4), 100, 0, 2, 3600).map(|(r, _)| r.members.len()),
        Err(Error::NotInitialized)
    );
    let (mut rec, _) = CircleRecord::open(0, true, a, AccountId(4), 100, 0, 2, 3600).unwrap();
    rec.join(0, b, 0).unwrap();
    rec.contribute(0, a).unwrap();
    rec.contribute(0, b).unwrap();
    assert_eq!(rec.settle_cycle(0, 0, false), Err(Error::NotInitialized));
    assert!(rec.settle_cycle(0, 0, true).is_ok());
}

#[test]
fn settlement_effects_in_order() {
    let mut f = setup();
    let [a, b, c] = f.members;
    let id = create_full_circle(&mut f);
    f.contribute(id, a).unwrap();
    f.contribute(id, b).unwrap();
    advance_past_deadline(&mut f, id);
    let now = f.now;
    let effects = f.client.settle_cycle(id, now).unwrap();
    assert_eq!(
        effects,
        vec![
            Effect::Publish(CircleEvent::Slash { id, member: c, amount: 100 }),
            Effect::Pay { to: a, amount: 300 },
            Effect::Publish(CircleEvent::Payout { id, recipient: a, amount: 300, cycle: 0 }),
        ]
    );
    assert_eq!(f.client.get_circle(id).unwrap().current_cycle, 1);
}

#[test]
fn zero_bond_defaults_on_first_miss() {
    let mut client = CircleContract::new();
    client.initialize(AccountId(1), AccountId(3)).unwrap();
    let (a, b) = (AccountId(10), AccountId(11));
    let (id, _) = client.create_circle(a, AccountId(4), 100, 0, 2, 3600).unwrap();
    client.join(id, b, 0).unwrap();
    client.contribute(id, a).unwrap();
    let effects = client.settle_cycle(id, 3601).unwrap();
    assert_eq!(
        effects,
        vec![
            Effect::Publish(CircleEvent::Defaulted { id, member: b }),
            Effect::ReportDefault { member: b },
            Effect::Pay { to: a, amount: 100 },
            Effect::Publish(CircleEvent::Payout { id, recipient: a, amount: 100, cycle: 0 }),
            Effect::ReportCompletion { member: a },
            Effect::Publish(CircleEvent::Complete { id }),
        ]
    );
    assert_eq!(client.get_circle(id).unwrap().status, CircleStatus::Completed);
}

#[test]
fn nobody_left_to_pay_refunds_the_payers() {
    // Cycle 0: all pay, a receives. Cycle 1: a pays, b and c miss and both
    // bonds run short, so nobody is left to pay: a gets back the
    // contribution plus the slashes.
    let mut client = CircleContract::new();
    client.initialize(AccountId(1), AccountId(3)).unwrap();
    let (a, b, c) = (AccountId(10), AccountId(11), AccountId(12));
    let (id, _) = client.create_circle(a, AccountId(4), 100, 30, 3, 3600).unwrap();
    client.join(id, b, 0).unwrap();
    client.join(id, c, 0).unwrap();
    for m in [a, b, c] {
        client.contribute(id, m).unwrap();
    }
    client.settle_cycle(id, 0).unwrap();
    client.contribute(id, a).unwrap();
    let effects = client.settle_cycle(id, 7201).unwrap();
    assert_eq!(
        effects,
        vec![
            Effect::Publish(CircleEvent::Slash { id, member: b, amount: 30 }),
            Effect::Publish(CircleEvent::Defaulted { id, member: b }),
            Effect::ReportDefault { member: b },
            Effect::Publish(CircleEvent::Slash { id, member: c, amount: 30 }),
            Effect::Publish(CircleEvent::Defaulted { id, member: c }),
            Effect::ReportDefault { member: c },
            Effect::Pay { to: a, amount: 160 },
            Effect::Pay { to: a, amount: 30 },
            Effect::ReportCompletion { member: a },
            Effect::Publish(CircleEvent::Complete { id }),
        ]
    );
}

#[test]
fn remainder_goes_to_the_first_payer() {
    // Five members with a bond of 25. After a and b have received, a and b
    // pay while c, d and e miss and default: the 75 slashed splits 37 each
    // and the remainder of 1 goes to the first payer.
    let mut client = CircleContract::new();
    client.initialize(AccountId(1), AccountId(3)).unwrap();
    let ms = [AccountId(10), AccountId(11), AccountId(12), AccountId(13), AccountId(14)];
    let (a, b) = (ms[0], ms[1]);
    let (id, _) = client.create_circle(a, AccountId(4), 100, 25, 5, 3600).unwrap();
    for m in &ms[1..] {
        client.join(id, *m, 0).unwrap();
    }
    for _ in 0..2 {
        for m in ms {
            client.contribute(id, m).unwrap();
        }
        client.settle_cycle(id, 0).unwrap();
    }
    client.contribute(id, a).unwrap();
    client.contribute(id, b).unwrap();
    let effects = client.settle_cycle(id, 3 * 3600 + 1).unwrap();
    let pays: Vec<Effect> = effects
        .into_iter()
        .filter(|e| matches!(e, Effect::Pay { .. }))
        .collect();
    assert_eq!(
        pays,
        vec![
            Effect::Pay { to: a, amount: 138 },
            Effect::Pay { to: b, amount: 137 },
            Effect::Pay { to: a, amount: 25 },
            Effect::Pay { to: b, amount: 25 },
        ]
    );
}

#[test]
fn slashes_stay_when_nobody_paid_and_nobody_is_owed() {
    // Cycle 0: a pays, b misses (bond 150 -> 50), a receives. Cycle 1:
    // nobody pays; a's bond covers the miss, b's does not. Nobody is owed
    // a payout and nobody paid, so no transfer is made for the pot: the 150
    // slashed stays in escrow, and a gets back only the bond left.
    let mut client = CircleContract::new();
    client.initialize(AccountId(1), AccountId(3)).unwrap();
    let (a, b) = (AccountId(10), AccountId(11));
    let (id, _) = client.create_circle(a, AccountId(4), 100, 150, 2, 3600).unwrap();
    client.join(id, b, 0).unwrap();
    client.contribute(id, a).unwrap();
    client.settle_cycle(id, 3601).unwrap();
    let effects = client.settle_cycle(id, 7201).unwrap();
    assert_eq!(
        effects,
        vec![
            Effect::Publish(CircleEvent::Slash { id, member: a, amount: 100 }),
            Effect::Publish(CircleEvent::Slash { id, member: b, amount: 50 }),
            Effect::Publish(CircleEvent::Defaulted { id, member: b }),
            Effect::ReportDefault { member: b },
            Effect::Pay { to: a, amount: 50 },
            Effect::ReportCompletion { member: a },
            Effect::Publish(CircleEvent::Complete { id }),
        ]
    );
    assert_eq!(client.get_circle(id).unwrap().status, CircleStatus::Completed);
    assert_eq!(client.circles[id as usize].escrow_balance(), Some(0));
}

#[test]
fn everyone_defaulting_keeps_the_slashes_in_escrow() {
    // Two members, bond 50, contribution 100. Both pay cycle 0 (a receives
    // 200); nobody pays cycle 1 and both bonds fall short. Nobody is owed
    // and nobody paid: neither defaulter is refunded and the 100 slashed
    // stays with the contract.
    let mut f = setup();
    let [a, b, _] = f.members;
    let token = f.token;
    let (id, effects) = f.client.create_circle(a, token, CONTRIB, 50, 2, PERIOD).unwrap();
    f.apply(effects);
    f.join(id, b).unwrap();
    f.contribute(id, a).unwrap();
    f.contribute(id, b).unwrap();
    f.settle_cycle(id).unwrap();
    advance_past_deadline(&mut f, id);
    f.settle_cycle(id).unwrap();
    assert_eq!(f.client.get_circle(id).unwrap().status, CircleStatus::Completed);
    assert_eq!(f.client.circles[id as usize].escrow_balance(), Some(0));
    assert_eq!(f.balance(&f.this), 100);
    assert_eq!(f.balance(&a), 1_000 - 50 - 100 + 200);
    assert_eq!(f.balance(&b), 1_000 - 50 - 100);
    assert_eq!(f.defaulted(a), 1);
    assert_eq!(f.defaulted(b), 1);
    assert_eq!(f.completed(a), 0);
}

#[test]
fn escrow_matches_the_contract_balance_throughout() {
    let mut f = setup();
    let [a, b, c] = f.members;
    let check = |f: &Fixture, id: u32| {
        let rec = &f.client.circles[id as usize];
        assert!(rec.is_well_formed());
        assert_eq!(rec.escrow_balance(), Some(f.balance(&f.this)));
    };
    let id = f.create_circle(a, 3).unwrap();
    check(&f, id);
    f.join(id, b).unwrap();
    check(&f, id);
    f.join(id, c).unwrap();
    check(&f, id);
    f.contribute(id, a).unwrap();
    check(&f, id);
    f.contribute(id, b).unwrap();
    check(&f, id);
    advance_past_deadline(&mut f, id);
    f.settle_cycle(id).unwrap();
    check(&f, id);
    f.contribute(id, a).unwrap();
    f.contribute(id, b).unwrap();
    advance_past_deadline(&mut f, id);
    f.settle_cycle(id).unwrap();
    check(&f, id);
    assert_eq!(f.client.get_circle(id).unwrap().status, CircleStatus::Completed);
    assert_eq!(f.balance(&f.this), 0);
}

#[test]
fn well_formedness_check_rejects_broken_records() {
    let mut f = setup();
    let id = create_full_circle(&mut f);
    let rec = &mut f.client.circles[id as usize];
    assert!(rec.is_well_formed());
    assert!(rec.deadline_fits());
    rec.members[2].state.deposit_remaining = -1;
    assert!(!rec.is_well_formed());
    rec.members[2].state.deposit_remaining = DEPOSIT;
    rec.members[1].member = rec.members[0].member;
    assert!(!rec.is_well_formed());
    let m1 = AccountId(11);
    rec.members[1].member = m1;
    rec.members[2].state.received = true;
    assert!(!rec.is_well_formed());
    rec.members[2].state.received = false;
    assert!(rec.is_well_formed());
    rec.circle.period_secs = u64::MAX;
    assert!(rec.deadline_fits());
    rec.circle.started_at = 1;
    assert!(!rec.deadline_fits());
}

#[test]
fn rotation_follows_join_order_with_a_late_defaulter() {
    // Four members; d defaults in cycle 0 (bond 50 < 100): the pot goes
    // to a, then b, then c, and d is skipped.
    let mut client = CircleContract::new();
    client.initialize(AccountId(1), AccountId(3)).unwrap();
    let ms = [AccountId(10), AccountId(11), AccountId(12), AccountId(13)];
    let (id, _) = client.create_circle(ms[0], AccountId(4), 100, 50, 4, 3600).unwrap();
    for m in &ms[1..] {
        client.join(id, *m, 0).unwrap();
    }
    let mut recipients = Vec::new();
    for cycle in 0..3u64 {
        for m in &ms[..3] {
            client.contribute(id, *m).unwrap();
        }
        let effects = client.settle_cycle(id, (cycle + 1) * 3600 + 1).unwrap();
        for e in effects {
            if let Effect::Publish(CircleEvent::Payout { recipient, amount, .. }) = e {
                recipients.push((recipient, amount));
            }
        }
    }
    assert_eq!(recipients, vec![(ms[0], 350), (ms[1], 300), (ms[2], 300)]);
    assert_eq!(client.get_circle(id).unwrap().status, CircleStatus::Completed);
    let d = client.get_member(id, ms[3]).unwrap();
    assert!(d.defaulted && !d.received && d.deposit_remaining == 0);
}

#[test]
fn join_refuses_a_record_already_at_size() {
    // Through the contract an Open circle never reaches its size (the last
    // join activates it); a record held at size while Open is refused.
    let fresh = |m: u64| MemberEntry {
        member: AccountId(m),
        state: MemberState { deposit_remaining: 0, received: false, defaulted: false },
        paid: false,
    };
    let mut rec = CircleRecord {
        circle: Circle {
            creator: AccountId(10),
            token: AccountId(4),
            contribution: 100,
            deposit: 0,
            size: 2,
            period_secs: 3600,
            status: CircleStatus::Open,
            started_at: 0,
            current_cycle: 0,
        },
        members: vec![fresh(10), fresh(11)],
    };
    assert!(!rec.is_well_formed());
    assert_eq!(rec.join(0, AccountId(12), 0), Err(Error::CircleFull));
    assert_eq!(rec.members.len(), 2);
}
