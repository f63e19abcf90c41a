use polkadex_ido::ido::{Ido, IdoConfig, IdoError, KycStatus, Missing};
use polkadex_ido::ledger::Ledger;

const ALICE: u64 = 1;
const ADMIN: u64 = 1;
const POLKADEX: u64 = 0;
const CHAINSAFE: u64 = 24;

fn config() -> IdoConfig {
    IdoConfig {
        admin: ADMIN,
        governance_asset: POLKADEX,
        voting_period: 28,
        vote_lock_unit: 10,
        participant_capacity: 3,
        vesting_window: 100,
    }
}

fn build() -> (Ido, Ledger) {
    let ido = Ido::new(config()).unwrap();
    let mut ledger = Ledger::new();
    for who in 1u64..=10 {
        ledger.deposit(POLKADEX, who, 1_000_000).unwrap();
        ledger.deposit(CHAINSAFE, who, 1_000_000).unwrap();
    }
    (ido, ledger)
}

fn register_round(
    ido: &mut Ido,
    ledger: &mut Ledger,
    creator: u64,
    amount: u128,
    min_allocation: u128,
    max_allocation: u128,
) -> Result<u64, IdoError> {
    let funding_period = 10;
    let cid = [0_u8; 32].to_vec();
    ido.register_round(
        ledger,
        creator,
        cid,
        CHAINSAFE,
        amount,
        POLKADEX,
        amount,
        funding_period,
        min_allocation,
        max_allocation,
        10,
    )
}

#[test]
fn test_register_investor() {
    let (mut ido, _ledger) = build();
    assert_eq!(ido.register_investor(ALICE), Ok(()));
    assert_eq!(ido.register_investor(ALICE), Err(IdoError::AlreadyExists));
}

#[test]
fn test_attest_investor() {
    let (mut ido, _ledger) = build();
    assert_eq!(
        ido.attest_investor(ALICE, KycStatus::Tier1),
        Err(IdoError::NotFound(Missing::Investor))
    );
    assert_eq!(ido.register_investor(ALICE), Ok(()));
    assert_eq!(ido.attest_investor(ALICE, KycStatus::Tier1), Ok(()));
    assert_eq!(ido.kyc_status(ALICE), Some(KycStatus::Tier1));
}

#[test]
fn test_register_round() {
    let (mut ido, mut ledger) = build();
    let balance: u128 = 100;
    assert!(register_round(&mut ido, &mut ledger, ALICE, balance, balance, balance).is_ok());
}

#[test]
fn test_participate_in_round() {
    let (mut ido, mut ledger) = build();
    let balance: u128 = 100;
    let investor_address: u64 = 4;
    let amount: u128 = 200;
    let round_id = register_round(&mut ido, &mut ledger, ALICE, balance, 100, 400).unwrap();
    assert_eq!(ido.round_of_creator(ALICE), Some(round_id));
    let (open_block_number, closing_block_number) = ido.round_window(round_id).unwrap();
    assert_eq!(ido.approve_ido_round(ADMIN, round_id), Ok(()));
    assert_eq!(ido.register_investor(investor_address), Ok(()));
    ido.set_block_number(open_block_number);
    assert!(ido
        .show_interest_in_round(&mut ledger, investor_address, round_id, amount, 7)
        .is_ok());
    ido.on_initialize(&mut ledger, closing_block_number);
    assert_eq!(ido.actual_raise(round_id), Some(amount));
}

#[test]
fn test_claim_tokens() {
    let (mut ido, mut ledger) = build();
    let balance: u128 = 100;
    let investor_address: u64 = 4;
    let missing_round: u64 = 999;
    assert_eq!(
        ido.claim_tokens(&mut ledger, investor_address, missing_round),
        Err(IdoError::NotFound(Missing::Investor))
    );
    assert_eq!(ido.register_investor(investor_address), Ok(()));
    assert_eq!(
        ido.claim_tokens(&mut ledger, investor_address, missing_round),
        Err(IdoError::NotFound(Missing::Round))
    );
    let round_id = register_round(&mut ido, &mut ledger, ALICE, balance, balance, balance).unwrap();
    let (open_block_number, closing_block_number) = ido.round_window(round_id).unwrap();
    assert_eq!(ido.approve_ido_round(ADMIN, round_id), Ok(()));
    // Only participants have tokens to claim: the investor commits first.
    ido.set_block_number(open_block_number);
    assert!(ido
        .show_interest_in_round(&mut ledger, investor_address, round_id, balance, 1)
        .is_ok());
    ido.set_block_number(closing_block_number);
    assert!(ido.claim_tokens(&mut ledger, investor_address, round_id).is_ok());
    let state = ido.claim_state(round_id, investor_address);
    assert!(state.is_some());
    assert_eq!(state.unwrap().last_claim_block, closing_block_number);
    assert_eq!(state.unwrap().claimed, 0);
}

#[test]
fn test_show_interest_in_round() {
    let (mut ido, mut ledger) = build();
    let balance: u128 = 500;
    let investor_address: u64 = 4;
    let amount: u128 = 200;
    let min_allocation: u128 = 100;
    let max_allocation: u128 = 400;
    let missing_round: u64 = 999;
    assert_eq!(
        ido.show_interest_in_round(&mut ledger, investor_address, missing_round, amount, 0),
        Err(IdoError::NotFound(Missing::Investor))
    );
    assert_eq!(ido.register_investor(investor_address), Ok(()));
    assert_eq!(
        ido.show_interest_in_round(&mut ledger, investor_address, missing_round, amount, 0),
        Err(IdoError::NotFound(Missing::Round))
    );
    let round_id =
        register_round(&mut ido, &mut ledger, ALICE, balance, min_allocation, max_allocation)
            .unwrap();
    assert_eq!(ido.approve_ido_round(ADMIN, round_id), Ok(()));
    let (open_block_number, _) = ido.round_window(round_id).unwrap();
    ido.set_block_number(open_block_number);
    assert_eq!(
        ido.show_interest_in_round(&mut ledger, investor_address, round_id, min_allocation - 1, 0),
        Err(IdoError::InvalidInput)
    );
    assert_eq!(
        ido.show_interest_in_round(&mut ledger, investor_address, round_id, max_allocation + 1, 0),
        Err(IdoError::InvalidInput)
    );
    assert!(ido
        .show_interest_in_round(&mut ledger, investor_address, round_id, amount, 0)
        .is_ok());
}

#[test]
fn test_show_interest_in_round_randomized_participants() {
    let (mut ido, mut ledger) = build();
    let balance: u128 = 500;
    let round_id = register_round(&mut ido, &mut ledger, ALICE, balance, 100, 400).unwrap();
    assert_eq!(ido.approve_ido_round(ADMIN, round_id), Ok(()));
    let investors: Vec<(u64, u128)> = vec![(4u64, 200), (2u64, 200), (5u64, 200), (6u64, 300)];
    let (start_block, _) = ido.round_window(round_id).unwrap();
    ido.set_block_number(start_block);
    for (investor_address, amount) in investors {
        assert_eq!(ido.register_investor(investor_address), Ok(()));
        assert!(ido
            .show_interest_in_round(&mut ledger, investor_address, round_id, amount, 12345)
            .is_ok());
    }
    let total_investment_amount = ido.actual_raise(round_id).unwrap();
    let investors_count = ido.participant_count(round_id).unwrap();
    assert!(investors_count <= 3);
    assert!(ido.commitment(round_id, 6).is_some());
    assert!(total_investment_amount >= balance);
}

#[test]
fn test_withdraw_raise() {
    let (mut ido, mut ledger) = build();
    let balance: u128 = 100;
    let investor_address: u64 = 4;
    let missing_round: u64 = 999;
    ido.set_block_number(0);
    assert_eq!(
        ido.withdraw_raise(&mut ledger, ALICE, missing_round, investor_address),
        Err(IdoError::NotFound(Missing::Investor))
    );
    assert_eq!(ido.register_investor(investor_address), Ok(()));
    assert_eq!(
        ido.withdraw_raise(&mut ledger, ALICE, missing_round, investor_address),
        Err(IdoError::NotFound(Missing::Round))
    );
    let round_id = register_round(&mut ido, &mut ledger, ALICE, balance, balance, balance).unwrap();
    let (open_block_number, closing_block_number) = ido.round_window(round_id).unwrap();
    assert_eq!(ido.approve_ido_round(ADMIN, round_id), Ok(()));
    ido.set_block_number(open_block_number);
    assert_eq!(
        ido.withdraw_raise(&mut ledger, 3, round_id, investor_address),
        Err(IdoError::Unauthorized)
    );
    assert_eq!(ido.register_investor(2), Ok(()));
    ledger.deposit(CHAINSAFE, 4, 100000).unwrap();
    assert!(register_round(&mut ido, &mut ledger, 4, balance, balance, balance).is_ok());
    assert_eq!(
        ido.withdraw_raise(&mut ledger, 4, round_id, 2),
        Err(IdoError::Unauthorized)
    );
    ido.set_block_number(closing_block_number - 1);
    assert_eq!(
        ido.withdraw_raise(&mut ledger, ALICE, round_id, investor_address),
        Err(IdoError::WindowViolation)
    );
    ido.set_block_number(closing_block_number);
    assert!(ido
        .withdraw_raise(&mut ledger, ALICE, round_id, investor_address)
        .is_ok());
}

#[test]
fn test_withdraw_token() {
    let (mut ido, mut ledger) = build();
    let balance: u128 = 100;
    let investor_address: u64 = 4;
    let missing_round: u64 = 999;
    assert_eq!(
        ido.withdraw_token(&mut ledger, ALICE, missing_round, investor_address),
        Err(IdoError::NotFound(Missing::Investor))
    );
    assert_eq!(ido.register_investor(investor_address), Ok(()));
    assert_eq!(
        ido.withdraw_token(&mut ledger, ALICE, missing_round, investor_address),
        Err(IdoError::NotFound(Missing::Round))
    );
    let round_id = register_round(&mut ido, &mut ledger, ALICE, balance, balance, balance).unwrap();
    let (open_block_number, closing_block_number) = ido.round_window(round_id).unwrap();
    assert_eq!(ido.approve_ido_round(ADMIN, round_id), Ok(()));
    ido.set_block_number(open_block_number);
    assert_eq!(
        ido.withdraw_token(&mut ledger, 3, round_id, investor_address),
        Err(IdoError::Unauthorized)
    );
    assert_eq!(ido.register_investor(2), Ok(()));
    ledger.deposit(CHAINSAFE, 4, 100000).unwrap();
    assert!(register_round(&mut ido, &mut ledger, 4, balance, balance, balance).is_ok());
    assert_eq!(
        ido.withdraw_token(&mut ledger, 4, round_id, 2),
        Err(IdoError::Unauthorized)
    );
    ido.set_block_number(closing_block_number - 1);
    assert_eq!(
        ido.withdraw_token(&mut ledger, ALICE, round_id, investor_address),
        Err(IdoError::WindowViolation)
    );
    ido.set_block_number(closing_block_number);
    assert!(ido
        .withdraw_token(&mut ledger, ALICE, round_id, investor_address)
        .is_ok());
}

#[test]
fn test_vote_for_round() {
    let (mut ido, mut ledger) = build();
    let balance: u128 = 100;
    let round_id = register_round(&mut ido, &mut ledger, ALICE, balance, balance, balance).unwrap();
    let (open_block_number, _) = ido.round_window(round_id).unwrap();
    let yes_voters: Vec<u64> = [6, 7, 8, 9].to_vec();
    let no_voters: Vec<u64> = [4, 2, 5].to_vec();
    for voter in yes_voters.iter() {
        assert_eq!(ido.vote(&mut ledger, *voter, round_id, balance, 2, true), Ok(()));
    }
    for voter in no_voters.iter() {
        assert_eq!(ido.vote(&mut ledger, *voter, round_id, balance, 2, false), Ok(()));
    }
    ido.on_initialize(&mut ledger, open_block_number);
    assert!(ido.is_approved(round_id));
    assert!(!ido.is_draft(round_id));
}

#[test]
fn test_vote_for_round_no_vote_majority() {
    let (mut ido, mut ledger) = build();
    let balance: u128 = 100;
    let round_id = register_round(&mut ido, &mut ledger, ALICE, balance, balance, balance).unwrap();
    let (open_block_number, _) = ido.round_window(round_id).unwrap();
    let no_voters: Vec<u64> = [6, 7, 8, 9].to_vec();
    let yes_voters: Vec<u64> = [4, 2, 5].to_vec();
    for voter in yes_voters.iter() {
        assert_eq!(ido.vote(&mut ledger, *voter, round_id, balance, 2, true), Ok(()));
    }
    for voter in no_voters.iter() {
        assert_eq!(ido.vote(&mut ledger, *voter, round_id, balance, 2, false), Ok(()));
    }
    ido.on_initialize(&mut ledger, open_block_number);
    assert!(!ido.is_approved(round_id));
    assert!(!ido.is_draft(round_id));
}

#[test]
fn test_get_reserve_amount() {
    let (mut ido, mut ledger) = build();
    let balance: u128 = 100;
    let round_id = register_round(&mut ido, &mut ledger, ALICE, balance, balance, balance).unwrap();
    assert_eq!(ido.vote(&mut ledger, 4, round_id, balance, 2, false), Ok(()));
    let unlocking_block = ido.vote_multiplier_to_block_number(2);
    let reserve_balance =
        ledger.total_balance(POLKADEX, 4) - ledger.free_balance(POLKADEX, 4);
    assert_eq!(reserve_balance, balance);
    ido.on_initialize(&mut ledger, unlocking_block);
    let reserve_balance =
        ledger.total_balance(POLKADEX, 4) - ledger.free_balance(POLKADEX, 4);
    assert_eq!(reserve_balance, 0);
}
