use polkadex_ido::admission::Placement;
use polkadex_ido::ido::{Ido, IdoConfig, IdoError, Missing};
use polkadex_ido::ledger::{Ledger, LedgerError};
use polkadex_ido::weights::{RuntimeDbWeight, WeightInfo};

const CREATOR: u64 = 1;
const ADMIN: u64 = 9;
const GOV: u64 = 0;
const RAISE: u64 = 24;

fn config(capacity: u64) -> IdoConfig {
    IdoConfig {
        admin: ADMIN,
        governance_asset: GOV,
        voting_period: 20,
        vote_lock_unit: 5,
        participant_capacity: capacity,
        vesting_window: 100,
    }
}

fn setup(capacity: u64) -> (Ido, Ledger) {
    let mut ido = Ido::new(config(capacity)).unwrap();
    let mut ledger = Ledger::new();
    for who in 1u64..=20 {
        ledger.deposit(GOV, who, 10_000).unwrap();
        ledger.deposit(RAISE, who, 10_000).unwrap();
        if who != CREATOR {
            ido.register_investor(who).unwrap();
        }
    }
    (ido, ledger)
}

/// A round of `CREATOR` selling `selling` tokens, approved and open.
fn open_round(ido: &mut Ido, ledger: &mut Ledger, raising: u128, selling: u128, min: u128, max: u128) -> (u64, u64, u64) {
    let id = ido
        .register_round(ledger, CREATOR, vec![1, 2, 3], RAISE, raising, GOV, selling, 10, min, max, 1)
        .unwrap();
    ido.approve_ido_round(ADMIN, id).unwrap();
    let (start, close) = ido.round_window(id).unwrap();
    ido.set_block_number(start);
    (id, start, close)
}

#[test]
fn scenario_four_commitments_keep_largest() {
    for seed in 0u64..60 {
        let (mut ido, mut ledger) = setup(3);
        let (id, _, _) = open_round(&mut ido, &mut ledger, 500, 500, 100, 400);
        for (who, amount) in [(4u64, 200u128), (2, 200), (5, 200), (6, 300)] {
            assert!(ido.show_interest_in_round(&mut ledger, who, id, amount, seed).is_ok());
        }
        assert!(ido.participant_count(id).unwrap() <= 3);
        assert_eq!(ido.commitment(id, 6), Some(300));
        assert!(ido.actual_raise(id).unwrap() >= 500);
        assert_eq!(ido.actual_raise(id), Some(700));
    }
}

#[test]
fn eviction_frees_victim_reservation() {
    let (mut ido, mut ledger) = setup(3);
    let (id, _, _) = open_round(&mut ido, &mut ledger, 500, 500, 100, 400);
    for (who, amount) in [(4u64, 100u128), (5, 200), (6, 300)] {
        assert!(ido.show_interest_in_round(&mut ledger, who, id, amount, 0).is_ok());
    }
    assert_eq!(ledger.reserved_balance(RAISE, 4), 100);
    // Weights: 100 -> 3, 200 -> 2, 300 -> 0; seed 0 draws the first band.
    assert_eq!(ido.show_interest_in_round(&mut ledger, 7, id, 400, 0), Ok(Placement::Replace(0)));
    assert_eq!(ido.commitment(id, 4), None);
    assert_eq!(ido.commitment(id, 7), Some(400));
    assert_eq!(ledger.reserved_balance(RAISE, 4), 0);
    assert_eq!(ledger.free_balance(RAISE, 4), 10_000);
    assert_eq!(ledger.reserved_balance(RAISE, 7), 400);
    assert_eq!(ledger.free_balance(RAISE, 7), 9_600);
}

#[test]
fn smaller_commitments_evicted_more_often() {
    let mut evicted_small = 0;
    let mut evicted_middle = 0;
    for seed in 0u64..1000 {
        let (mut ido, mut ledger) = setup(3);
        let (id, _, _) = open_round(&mut ido, &mut ledger, 500, 500, 100, 400);
        for (who, amount) in [(4u64, 100u128), (5, 200), (6, 300)] {
            ido.show_interest_in_round(&mut ledger, who, id, amount, 0).unwrap();
        }
        match ido.show_interest_in_round(&mut ledger, 7, id, 400, seed) {
            Ok(Placement::Replace(0)) => evicted_small += 1,
            Ok(Placement::Replace(1)) => evicted_middle += 1,
            other => panic!("unexpected {:?}", other),
        }
        assert_eq!(ido.commitment(id, 6), Some(300));
    }
    assert_eq!(evicted_small, 600);
    assert_eq!(evicted_middle, 400);
}

#[test]
fn largest_commitment_always_retained() {
    for seed in 0u64..40 {
        let (mut ido, mut ledger) = setup(3);
        let (id, _, _) = open_round(&mut ido, &mut ledger, 500, 500, 100, 400);
        let mut largest = 0u128;
        for who in 2u64..15 {
            let amount = 100 + ((who * 37 + seed * 11) % 300) as u128;
            largest = largest.max(amount);
            ido.show_interest_in_round(&mut ledger, who, id, amount, seed * 7 + who).unwrap();
            assert!(ido.participant_count(id).unwrap() <= 3);
            let held: Vec<u128> = (2u64..15).filter_map(|w| ido.commitment(id, w)).collect();
            assert_eq!(held.iter().copied().max(), Some(largest));
        }
    }
}

#[test]
fn newcomer_not_above_victim_is_declined() {
    let (mut ido, mut ledger) = setup(3);
    let (id, _, _) = open_round(&mut ido, &mut ledger, 500, 500, 100, 400);
    for who in [4u64, 5, 6] {
        ido.show_interest_in_round(&mut ledger, who, id, 300, 0).unwrap();
    }
    assert_eq!(ido.show_interest_in_round(&mut ledger, 7, id, 300, 3), Ok(Placement::Decline));
    assert_eq!(ido.commitment(id, 7), None);
    assert_eq!(ledger.reserved_balance(RAISE, 7), 0);
    assert_eq!(ido.actual_raise(id), Some(900));
}

#[test]
fn updating_a_commitment_adjusts_reservation() {
    let (mut ido, mut ledger) = setup(3);
    let (id, _, _) = open_round(&mut ido, &mut ledger, 500, 500, 100, 400);
    assert_eq!(ido.show_interest_in_round(&mut ledger, 4, id, 200, 0), Ok(Placement::Join));
    assert_eq!(ido.show_interest_in_round(&mut ledger, 4, id, 350, 0), Ok(Placement::Update(0)));
    assert_eq!(ledger.reserved_balance(RAISE, 4), 350);
    assert_eq!(ido.show_interest_in_round(&mut ledger, 4, id, 150, 0), Ok(Placement::Update(0)));
    assert_eq!(ledger.reserved_balance(RAISE, 4), 150);
    assert_eq!(ido.participant_count(id), Some(1));
}

#[test]
fn interest_boundaries() {
    let (mut ido, mut ledger) = setup(3);
    let (id, start, close) = open_round(&mut ido, &mut ledger, 500, 500, 100, 400);
    assert_eq!(ido.show_interest_in_round(&mut ledger, 4, id, 99, 0), Err(IdoError::InvalidInput));
    assert_eq!(ido.show_interest_in_round(&mut ledger, 4, id, 401, 0), Err(IdoError::InvalidInput));
    assert!(ido.show_interest_in_round(&mut ledger, 4, id, 100, 0).is_ok());
    assert!(ido.show_interest_in_round(&mut ledger, 5, id, 400, 0).is_ok());
    assert_eq!(ido.show_interest_in_round(&mut ledger, 1, id, 200, 0), Err(IdoError::NotFound(Missing::Investor)));
    ido.set_block_number(close - 1);
    assert!(ido.show_interest_in_round(&mut ledger, 6, id, 200, 0).is_ok());
    ido.set_block_number(close);
    assert_eq!(ido.show_interest_in_round(&mut ledger, 7, id, 200, 0), Err(IdoError::WindowViolation));
    assert!(start < close);
}

#[test]
fn interest_before_open_and_on_drafts() {
    let (mut ido, mut ledger) = setup(3);
    let id = ido
        .register_round(&mut ledger, CREATOR, vec![], RAISE, 500, GOV, 500, 10, 100, 400, 1)
        .unwrap();
    assert_eq!(ido.show_interest_in_round(&mut ledger, 4, id, 200, 0), Err(IdoError::NotFound(Missing::Round)));
    ido.approve_ido_round(ADMIN, id).unwrap();
    assert_eq!(ido.show_interest_in_round(&mut ledger, 4, id, 200, 0), Err(IdoError::WindowViolation));
}

#[test]
fn interest_needs_funds() {
    let (mut ido, mut ledger) = setup(3);
    let (id, _, _) = open_round(&mut ido, &mut ledger, 500, 500, 100, 20_000);
    assert_eq!(ido.show_interest_in_round(&mut ledger, 4, id, 10_001, 0), Err(IdoError::InsufficientFunds));
    assert_eq!(ido.participant_count(id), Some(0));
}

#[test]
fn withdraw_window_boundary() {
    let (mut ido, mut ledger) = setup(3);
    let (id, _, close) = open_round(&mut ido, &mut ledger, 500, 500, 100, 400);
    ido.set_block_number(close - 1);
    assert_eq!(ido.withdraw_raise(&mut ledger, CREATOR, id, 2), Err(IdoError::WindowViolation));
    assert_eq!(ido.withdraw_token(&mut ledger, CREATOR, id, 2), Err(IdoError::WindowViolation));
    ido.set_block_number(close);
    assert!(ido.withdraw_raise(&mut ledger, CREATOR, id, 2).is_ok());
    assert!(ido.withdraw_token(&mut ledger, CREATOR, id, 2).is_ok());
}

#[test]
fn withdraw_raise_moves_commitments_once() {
    let (mut ido, mut ledger) = setup(3);
    let (id, _, close) = open_round(&mut ido, &mut ledger, 500, 500, 100, 400);
    ido.show_interest_in_round(&mut ledger, 4, id, 200, 0).unwrap();
    ido.show_interest_in_round(&mut ledger, 5, id, 300, 0).unwrap();
    ido.set_block_number(close);
    assert_eq!(ido.withdraw_raise(&mut ledger, CREATOR, id, 2), Ok(500));
    assert_eq!(ledger.free_balance(RAISE, 2), 10_500);
    assert_eq!(ledger.total_balance(RAISE, 4), 9_800);
    assert_eq!(ledger.total_balance(RAISE, 5), 9_700);
    assert_eq!(ido.withdraw_raise(&mut ledger, CREATOR, id, 2), Err(IdoError::AlreadyExists));
}

#[test]
fn withdraw_token_returns_unsold_remainder() {
    let (mut ido, mut ledger) = setup(3);
    let (id, _, close) = open_round(&mut ido, &mut ledger, 300, 1000, 100, 400);
    for who in [4u64, 5, 6] {
        ido.show_interest_in_round(&mut ledger, who, id, 100, 0).unwrap();
    }
    ido.set_block_number(close);
    // Each is owed 1000 * 100 / 300 = 333; one token is left over.
    assert_eq!(ido.withdraw_token(&mut ledger, CREATOR, id, 2), Ok(1));
    assert_eq!(ledger.free_balance(GOV, 2), 10_001);
    assert_eq!(ledger.reserved_balance(GOV, CREATOR), 999);
    assert_eq!(ido.withdraw_token(&mut ledger, CREATOR, id, 2), Err(IdoError::AlreadyExists));
}

#[test]
fn withdraw_token_without_participants_returns_all() {
    let (mut ido, mut ledger) = setup(3);
    let (id, _, close) = open_round(&mut ido, &mut ledger, 300, 1000, 100, 400);
    ido.set_block_number(close);
    assert_eq!(ido.withdraw_token(&mut ledger, CREATOR, id, 2), Ok(1000));
    assert_eq!(ledger.reserved_balance(GOV, CREATOR), 0);
}

#[test]
fn claims_vest_linearly_and_never_exceed_entitlement() {
    let (mut ido, mut ledger) = setup(3);
    let (id, _, close) = open_round(&mut ido, &mut ledger, 500, 1000, 100, 400);
    ido.show_interest_in_round(&mut ledger, 4, id, 200, 0).unwrap();
    ido.show_interest_in_round(&mut ledger, 5, id, 300, 0).unwrap();
    assert_eq!(ido.claim_tokens(&mut ledger, 4, id), Err(IdoError::WindowViolation));
    ido.set_block_number(close);
    assert_eq!(ido.claim_tokens(&mut ledger, 6, id), Err(IdoError::NotFound(Missing::Investor)));
    // Entitlement of investor 4: 200 * 1000 / 500 = 400 over 100 blocks.
    assert_eq!(ido.claim_tokens(&mut ledger, 4, id), Ok(0));
    ido.set_block_number(close + 25);
    assert_eq!(ido.claim_tokens(&mut ledger, 4, id), Ok(100));
    assert_eq!(ido.claim_tokens(&mut ledger, 4, id), Ok(0));
    ido.set_block_number(close + 50);
    assert_eq!(ido.claim_tokens(&mut ledger, 4, id), Ok(100));
    assert_eq!(ido.claim_state(id, 4).unwrap().claimed, 200);
    ido.set_block_number(close + 500);
    assert_eq!(ido.claim_tokens(&mut ledger, 4, id), Ok(200));
    assert_eq!(ido.claim_tokens(&mut ledger, 4, id), Ok(0));
    assert_eq!(ido.claim_state(id, 4).unwrap().claimed, 400);
    assert_eq!(ido.claim_state(id, 4).unwrap().last_claim_block, close + 100);
    assert_eq!(ledger.free_balance(GOV, 4), 10_400);
    // Investor 5 claims everything at once: 300 * 1000 / 500 = 600.
    assert_eq!(ido.claim_tokens(&mut ledger, 5, id), Ok(600));
    assert_eq!(ledger.reserved_balance(GOV, CREATOR), 0);
}

#[test]
fn tally_majority_tie_and_silence() {
    let (mut ido, mut ledger) = setup(3);
    let a = ido.register_round(&mut ledger, CREATOR, vec![], RAISE, 500, GOV, 500, 10, 100, 400, 1).unwrap();
    let b = ido.register_round(&mut ledger, 2, vec![], RAISE, 500, GOV, 500, 10, 100, 400, 1).unwrap();
    let c = ido.register_round(&mut ledger, 3, vec![], RAISE, 500, GOV, 500, 10, 100, 400, 1).unwrap();
    ido.vote(&mut ledger, 4, a, 101, 1, true).unwrap();
    ido.vote(&mut ledger, 5, a, 100, 1, false).unwrap();
    ido.vote(&mut ledger, 4, b, 100, 1, true).unwrap();
    ido.vote(&mut ledger, 5, b, 100, 1, false).unwrap();
    let (start, _) = ido.round_window(a).unwrap();
    ido.on_initialize(&mut ledger, start - 1);
    assert!(ido.is_draft(a) && ido.is_draft(b) && ido.is_draft(c));
    ido.on_initialize(&mut ledger, start);
    assert!(ido.is_approved(a));
    assert!(!ido.is_approved(b) && !ido.is_draft(b));
    assert!(!ido.is_approved(c) && !ido.is_draft(c));
    assert_eq!(ido.round_window(b), None);
    // A tallied round is not tallied again.
    ido.on_initialize(&mut ledger, start + 1);
    assert!(ido.is_approved(a));
}

#[test]
fn vote_stake_locked_until_unlock_block() {
    let (mut ido, mut ledger) = setup(3);
    let id = ido.register_round(&mut ledger, CREATOR, vec![], RAISE, 500, GOV, 500, 10, 100, 400, 1).unwrap();
    // Lock period: (multiplier + 1) * 5 blocks.
    assert_eq!(ido.vote_multiplier_to_block_number(3), 20);
    assert_eq!(ido.vote(&mut ledger, 4, id, 300, 3, true), Ok(()));
    assert_eq!(ido.vote(&mut ledger, 4, id, 200, 0, false), Ok(()));
    assert_eq!(ledger.reserved_balance(GOV, 4), 500);
    assert_eq!(ledger.free_balance(GOV, 4), 9_500);
    let released = ido.on_initialize(&mut ledger, 4);
    assert!(released.is_empty());
    assert_eq!(ledger.reserved_balance(GOV, 4), 500);
    let released = ido.on_initialize(&mut ledger, 5);
    assert_eq!(released.len(), 1);
    assert_eq!(released[0].amount, 200);
    assert_eq!(ledger.reserved_balance(GOV, 4), 300);
    ido.on_initialize(&mut ledger, 19);
    assert_eq!(ledger.reserved_balance(GOV, 4), 300);
    let released = ido.on_initialize(&mut ledger, 20);
    assert_eq!(released.len(), 1);
    assert_eq!(ledger.reserved_balance(GOV, 4), 0);
    assert_eq!(ledger.free_balance(GOV, 4), 10_000);
    assert!(ido.votes.is_empty());
}

#[test]
fn vote_errors() {
    let (mut ido, mut ledger) = setup(3);
    assert_eq!(ido.vote(&mut ledger, 4, 77, 10, 1, true), Err(IdoError::NotFound(Missing::Round)));
    let id = ido.register_round(&mut ledger, CREATOR, vec![], RAISE, 500, GOV, 500, 10, 100, 400, 1).unwrap();
    assert_eq!(ido.vote(&mut ledger, 4, id, 10_001, 1, true), Err(IdoError::InsufficientFunds));
    assert_eq!(ledger.reserved_balance(GOV, 4), 0);
    ido.approve_ido_round(ADMIN, id).unwrap();
    assert_eq!(ido.vote(&mut ledger, 4, id, 10, 1, true), Err(IdoError::NotFound(Missing::Round)));
}

#[test]
fn register_round_rules() {
    let (mut ido, mut ledger) = setup(3);
    assert_eq!(
        ido.register_round(&mut ledger, CREATOR, vec![], RAISE, 500, GOV, 500, 0, 100, 400, 1),
        Err(IdoError::InvalidInput)
    );
    assert_eq!(
        ido.register_round(&mut ledger, CREATOR, vec![], RAISE, 500, GOV, 500, 10, 401, 400, 1),
        Err(IdoError::InvalidInput)
    );
    assert_eq!(
        ido.register_round(&mut ledger, CREATOR, vec![], RAISE, 500, GOV, 500, 10, 0, 400, 1),
        Err(IdoError::InvalidInput)
    );
    assert_eq!(
        ido.register_round(&mut ledger, CREATOR, vec![], RAISE, 500, GOV, 10_001, 10, 100, 400, 1),
        Err(IdoError::InsufficientFunds)
    );
    let id = ido.register_round(&mut ledger, CREATOR, vec![], RAISE, 500, GOV, 500, 10, 100, 400, 1).unwrap();
    assert_eq!(ledger.reserved_balance(GOV, CREATOR), 500);
    assert_eq!(ido.round_window(id), Some((20, 30)));
    assert_eq!(
        ido.register_round(&mut ledger, CREATOR, vec![], RAISE, 500, GOV, 500, 10, 100, 400, 1),
        Err(IdoError::AlreadyExists)
    );
    assert_eq!(ido.approve_ido_round(4, id), Err(IdoError::Unauthorized));
    assert_eq!(ido.approve_ido_round(ADMIN, id), Ok(()));
    assert_eq!(ido.approve_ido_round(ADMIN, id), Err(IdoError::NotFound(Missing::Round)));
    ido.set_block_number(30);
    assert_eq!(ido.round_of_creator(CREATOR), None);
    let next = ido.register_round(&mut ledger, CREATOR, vec![], RAISE, 500, GOV, 500, 10, 100, 400, 1).unwrap();
    assert_ne!(next, id);
}

#[test]
fn config_rules() {
    assert_eq!(Ido::new(config(1)).err(), Some(IdoError::InvalidInput));
    assert_eq!(Ido::new(config(1001)).err(), Some(IdoError::InvalidInput));
    let mut c = config(3);
    c.vesting_window = 0;
    assert_eq!(Ido::new(c).err(), Some(IdoError::InvalidInput));
    assert!(Ido::new(config(2)).is_ok());
}

#[test]
fn ledger_operations() {
    let mut ledger = Ledger::new();
    assert_eq!(ledger.free_balance(1, 1), 0);
    assert_eq!(ledger.deposit(1, 1, 100), Ok(()));
    assert_eq!(ledger.deposit(1, 1, u128::MAX), Err(LedgerError::Overflow));
    assert_eq!(ledger.reserve(1, 1, 101), Err(LedgerError::InsufficientBalance));
    assert_eq!(ledger.reserve(1, 1, 60), Ok(()));
    assert_eq!(ledger.free_balance(1, 1), 40);
    assert_eq!(ledger.reserved_balance(1, 1), 60);
    assert_eq!(ledger.total_balance(1, 1), 100);
    assert_eq!(ledger.unreserve(1, 1, 70), 10);
    assert_eq!(ledger.reserved_balance(1, 1), 0);
    assert_eq!(ledger.free_balance(1, 1), 100);
    ledger.reserve(1, 1, 50).unwrap();
    assert_eq!(ledger.repatriate_reserved(1, 1, 2, 80), 50);
    assert_eq!(ledger.free_balance(1, 2), 50);
    assert_eq!(ledger.total_balance(1, 1), 50);
    assert_eq!(ledger.free_balance(2, 1), 0);
}

#[test]
fn session_weights() {
    let rocks = RuntimeDbWeight { read: 25_000_000, write: 100_000_000 };
    assert_eq!(WeightInfo::set_keys(rocks), 88_411_000 + 6 * 25_000_000 + 5 * 100_000_000);
    assert_eq!(WeightInfo::purge_keys(rocks), 51_843_000 + 2 * 25_000_000 + 5 * 100_000_000);
    let huge = RuntimeDbWeight { read: u64::MAX / 2, write: 1 };
    assert_eq!(WeightInfo::set_keys(huge), u64::MAX);
}
