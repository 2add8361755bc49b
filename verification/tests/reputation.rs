use openajo::reputation::{Reputation, ReputationContract, ReputationError, ReputationEvent};
use openajo::types::AccountId;

fn setup() -> (ReputationContract, AccountId) {
    let mut client = ReputationContract::new();
    let admin = AccountId(1);
    client.initialize(admin).unwrap();
    (client, admin)
}

#[test]
fn reports_increment_counts() {
    let (mut client, admin) = setup();
    let reporter = AccountId(2);
    let member = AccountId(3);
    client.set_reporter(admin, reporter, true).unwrap();

    client.report_completion(reporter, member).unwrap();
    client.report_completion(reporter, member).unwrap();
    client.report_default(reporter, member).unwrap();

    assert_eq!(
        client.get_reputation(member),
        Reputation {
            completed: 2,
            defaulted: 1
        }
    );
}

#[test]
fn unknown_member_reads_zero() {
    let (client, _) = setup();
    let stranger = AccountId(9);
    assert_eq!(
        client.get_reputation(stranger),
        Reputation {
            completed: 0,
            defaulted: 0
        }
    );
}

#[test]
fn initialize_twice_panics() {
    let (mut client, _) = setup();
    let other = AccountId(5);
    assert_eq!(client.initialize(other), Err(ReputationError::AlreadyInitialized));
}

#[test]
fn unauthorized_reporter_panics() {
    let (mut client, _) = setup();
    let rogue = AccountId(6);
    let member = AccountId(3);
    assert_eq!(client.report_completion(rogue, member), Err(ReputationError::NotReporter));
}

#[test]
fn revoked_reporter_panics() {
    let (mut client, admin) = setup();
    let reporter = AccountId(2);
    let member = AccountId(3);
    client.set_reporter(admin, reporter, true).unwrap();
    client.set_reporter(admin, reporter, false).unwrap();
    assert_eq!(client.report_default(reporter, member), Err(ReputationError::NotReporter));
}

#[test]
fn non_admin_set_reporter_panics() {
    let (mut client, _) = setup();
    let impostor = AccountId(7);
    let reporter = AccountId(2);
    assert_eq!(client.set_reporter(impostor, reporter, true), Err(ReputationError::NotAdmin));
}

// ---- Further cases ----------------------------------------------------------

#[test]
fn set_reporter_before_initialize_is_refused() {
    let mut client = ReputationContract::new();
    assert_eq!(
        client.set_reporter(AccountId(1), AccountId(2), true),
        Err(ReputationError::NotInitialized)
    );
}

#[test]
fn reports_touch_only_their_member_and_publish() {
    let (mut client, admin) = setup();
    let reporter = AccountId(2);
    let (m1, m2) = (AccountId(3), AccountId(4));
    client.set_reporter(admin, reporter, true).unwrap();
    assert_eq!(
        client.report_default(reporter, m1),
        Ok(ReputationEvent::Defaulted { member: m1 })
    );
    assert_eq!(
        client.report_completion(reporter, m1),
        Ok(ReputationEvent::Completion { member: m1 })
    );
    assert_eq!(client.get_reputation(m2), Reputation { completed: 0, defaulted: 0 });
    assert_eq!(client.get_reputation(m1), Reputation { completed: 1, defaulted: 1 });
    assert!(client.is_reporter(reporter));
    assert!(!client.is_reporter(m1));
}

#[test]
fn reputation_error_codes_are_stable() {
    assert_eq!(ReputationError::NotInitialized.code(), 1);
    assert_eq!(ReputationError::AlreadyInitialized.code(), 2);
    assert_eq!(ReputationError::NotAdmin.code(), 3);
    assert_eq!(ReputationError::NotReporter.code(), 4);
}
