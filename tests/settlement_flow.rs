use settlement::{
    AffirmationStatus, InstructionStatus, Leg, LegStatus, PortfolioId, ReceiptDetails, Settlement,
    SettlementError, SettlementType, VenueType,
};

const ALICE: u64 = 1;
const BOB: u64 = 2;
const CHARLIE: u64 = 3;
const DAVE: u64 = 4;
const TICKER: u64 = 0x4143_4d45;
const TICKER2: u64 = 0x4143_4d45_32;

fn dp(did: u64) -> PortfolioId {
    PortfolioId::default_portfolio(did)
}

fn create_token(s: &mut Settlement, ticker: u64, owner: u64) {
    s.create_asset(owner, ticker).unwrap();
    s.issue(owner, ticker, 100_000).unwrap();
    s.set_compliance(owner, ticker, true).unwrap();
}

fn create_venue(s: &mut Settlement, user: u64) -> u64 {
    s.create_venue(user, vec![], vec![user], VenueType::Other).unwrap()
}

fn create_token_and_venue(s: &mut Settlement, ticker: u64, user: u64) -> u64 {
    create_token(s, ticker, user);
    create_venue(s, user)
}

fn fungible(from: u64, to: u64, ticker: u64, amount: u128) -> Leg {
    Leg::Fungible { sender: dp(from), receiver: dp(to), asset: ticker, amount }
}

fn create_instruction(s: &mut Settlement, alice: u64, bob: u64, venue: u64, ticker: u64, amount: u128) -> u64 {
    s.set_block(10);
    s.add_and_affirm_instruction(
        alice,
        venue,
        SettlementType::SettleOnAffirmation,
        None,
        None,
        vec![fungible(alice, bob, ticker, amount)],
        vec![dp(alice)], None,
    )
    .unwrap()
}

#[test]
fn venue_registration() {
    let mut s = Settlement::new();
    let venue_counter = s.venue_counter();
    s.create_venue(ALICE, vec![], vec![ALICE, BOB], VenueType::Exchange).unwrap();
    assert_eq!(s.venue_counter(), venue_counter + 1);
    let v = &s.venues[venue_counter as usize];
    assert_eq!(v.creator, ALICE);
    assert_eq!(v.venue_type, VenueType::Exchange);
    assert!(v.details.is_empty());
    assert!(s.venue_signer(venue_counter, ALICE));
    assert!(s.venue_signer(venue_counter, BOB));
    assert!(!s.venue_signer(venue_counter, CHARLIE));

    s.create_venue(ALICE, vec![], vec![ALICE, BOB], VenueType::Exchange).unwrap();
    assert_eq!(s.venue_counter(), venue_counter + 2);

    s.update_venue_details(ALICE, venue_counter, vec![0x01]).unwrap();
    let v = &s.venues[venue_counter as usize];
    assert_eq!(v.creator, ALICE);
    assert_eq!(v.details, vec![0x01]);
    assert_eq!(v.venue_type, VenueType::Exchange);
    assert_eq!(s.update_venue_details(BOB, venue_counter, vec![0x02]), Err(SettlementError::Unauthorized));
    assert_eq!(s.update_venue_type(ALICE, 9, VenueType::Sto), Err(SettlementError::InvalidVenue));
}

#[test]
fn basic_settlement() {
    let mut s = Settlement::new();
    let venue = create_token_and_venue(&mut s, TICKER, ALICE);
    let id = s.instruction_counter();
    let amount = 100u128;
    s.add_instruction(ALICE, venue, SettlementType::SettleOnAffirmation, None, None, vec![fungible(ALICE, BOB, TICKER, amount)], None)
        .unwrap();
    assert_eq!(s.balance(dp(ALICE), TICKER), 100_000);
    assert_eq!(s.balance(dp(BOB), TICKER), 0);

    s.affirm_instruction(ALICE, id, vec![dp(ALICE)]).unwrap();
    assert_eq!(s.balance(dp(ALICE), TICKER), 100_000);
    assert_eq!(s.balance(dp(BOB), TICKER), 0);
    s.set_block(5);
    s.affirm_instruction(BOB, id, vec![dp(BOB)]).unwrap();
    // Execution waits for the next block.
    assert_eq!(s.scheduled_at(6), 1);
    assert_eq!(s.balance(dp(BOB), TICKER), 0);

    s.next_block();
    assert_eq!(s.balance(dp(ALICE), TICKER), 100_000 - amount);
    assert_eq!(s.balance(dp(BOB), TICKER), amount);
    assert_eq!(s.instruction_status(id), InstructionStatus::Success(6));
    assert!(s.instructions[id as usize].legs.is_empty());
    assert_eq!(s.affirmation_status(id, dp(ALICE)), AffirmationStatus::Unknown);
}

#[test]
fn create_and_affirm_instruction() {
    let mut s = Settlement::new();
    let venue = create_token_and_venue(&mut s, TICKER, ALICE);
    let id = s.instruction_counter();
    let amount = 100u128;
    s.add_and_affirm_instruction(
        ALICE,
        venue,
        SettlementType::SettleOnAffirmation,
        None,
        None,
        vec![fungible(ALICE, BOB, TICKER, amount)],
        vec![dp(ALICE)], None,
    )
    .unwrap();
    assert_eq!(s.affirmation_status(id, dp(ALICE)), AffirmationStatus::Affirmed);
    assert_eq!(s.affirmation_status(id, dp(BOB)), AffirmationStatus::Pending);
    assert_eq!(s.locked_balance(dp(ALICE), TICKER), amount);

    s.affirm_instruction(BOB, id, vec![dp(BOB)]).unwrap();
    s.next_block();
    assert_eq!(s.balance(dp(ALICE), TICKER), 100_000 - amount);
    assert_eq!(s.balance(dp(BOB), TICKER), amount);
    assert_eq!(s.locked_balance(dp(ALICE), TICKER), 0);
}

#[test]
fn overdraft_failure() {
    let mut s = Settlement::new();
    let venue = create_token_and_venue(&mut s, TICKER, ALICE);
    let id = s.instruction_counter();
    let amount = 100_000_000u128;
    s.add_instruction(ALICE, venue, SettlementType::SettleOnAffirmation, None, None, vec![fungible(ALICE, BOB, TICKER, amount)], None)
        .unwrap();
    assert_eq!(s.affirm_instruction(ALICE, id, vec![dp(ALICE)]), Err(SettlementError::InsufficientPortfolioBalance));
    assert_eq!(s.balance(dp(ALICE), TICKER), 100_000);
    assert_eq!(s.balance(dp(BOB), TICKER), 0);
    assert_eq!(s.affirmation_status(id, dp(ALICE)), AffirmationStatus::Pending);
}

#[test]
fn token_swap() {
    let mut s = Settlement::new();
    let venue = create_token_and_venue(&mut s, TICKER, ALICE);
    create_token(&mut s, TICKER2, BOB);
    let id = s.instruction_counter();
    let legs = vec![fungible(ALICE, BOB, TICKER, 100), fungible(BOB, ALICE, TICKER2, 500)];
    s.add_instruction(ALICE, venue, SettlementType::SettleOnAffirmation, None, None, legs, None).unwrap();
    assert_eq!(s.instruction_affirms_pending(id), 2);
    assert_eq!(s.instruction_status(id), InstructionStatus::Pending);

    s.affirm_instruction(ALICE, id, vec![dp(ALICE)]).unwrap();
    assert_eq!(s.instruction_affirms_pending(id), 1);
    assert_eq!(s.instruction_leg_status(id, 0), Some(LegStatus::ExecutionPending));
    assert_eq!(s.instruction_leg_status(id, 1), Some(LegStatus::PendingTokenLock));
    assert_eq!(s.locked_balance(dp(ALICE), TICKER), 100);

    s.withdraw_affirmation(ALICE, id, vec![dp(ALICE)]).unwrap();
    assert_eq!(s.instruction_affirms_pending(id), 2);
    assert_eq!(s.locked_balance(dp(ALICE), TICKER), 0);
    assert_eq!(s.instruction_leg_status(id, 0), Some(LegStatus::PendingTokenLock));

    s.affirm_instruction(ALICE, id, vec![dp(ALICE)]).unwrap();
    s.set_block(5);
    s.affirm_instruction(BOB, id, vec![dp(BOB)]).unwrap();
    assert_eq!(s.instruction_affirms_pending(id), 0);
    s.next_block();
    assert_eq!(s.balance(dp(ALICE), TICKER), 100_000 - 100);
    assert_eq!(s.balance(dp(BOB), TICKER), 100);
    assert_eq!(s.balance(dp(ALICE), TICKER2), 500);
    assert_eq!(s.balance(dp(BOB), TICKER2), 100_000 - 500);
}

#[test]
fn settle_on_block() {
    let mut s = Settlement::new();
    let venue = create_token_and_venue(&mut s, TICKER, ALICE);
    create_token(&mut s, TICKER2, BOB);
    let id = s.instruction_counter();
    let block_number = s.block + 1;
    let amount = 100u128;
    let legs = vec![fungible(ALICE, BOB, TICKER, amount), fungible(BOB, ALICE, TICKER2, amount)];
    assert_eq!(s.scheduled_at(block_number), 0);
    s.add_instruction(ALICE, venue, SettlementType::SettleOnBlock(block_number), None, None, legs.clone(), None).unwrap();
    assert_eq!(s.scheduled_at(block_number), 1);
    assert_eq!(s.affirmation_status(id, dp(ALICE)), AffirmationStatus::Pending);
    assert_eq!(s.affirmation_status(id, dp(BOB)), AffirmationStatus::Pending);
    assert_eq!(s.instructions[id as usize].legs, legs);
    assert_eq!(s.instructions[id as usize].venue_id, venue);
    assert_eq!(s.instructions[id as usize].settlement_type, SettlementType::SettleOnBlock(block_number));
    assert_eq!(s.instruction_status(id), InstructionStatus::Pending);
    assert_eq!(s.instruction_affirms_pending(id), 2);

    s.affirm_instruction(ALICE, id, vec![dp(ALICE)]).unwrap();
    assert_eq!(s.instruction_affirms_pending(id), 1);
    assert_eq!(s.affirmation_status(id, dp(ALICE)), AffirmationStatus::Affirmed);
    assert_eq!(s.instruction_leg_status(id, 0), Some(LegStatus::ExecutionPending));
    assert_eq!(s.instruction_leg_status(id, 1), Some(LegStatus::PendingTokenLock));
    assert_eq!(s.locked_balance(dp(ALICE), TICKER), amount);

    s.affirm_instruction(BOB, id, vec![dp(BOB)]).unwrap();
    assert_eq!(s.instruction_affirms_pending(id), 0);
    assert_eq!(s.locked_balance(dp(BOB), TICKER2), amount);
    assert_eq!(s.balance(dp(ALICE), TICKER), 100_000);
    assert_eq!(s.balance(dp(BOB), TICKER), 0);

    s.next_block();
    assert_eq!(s.affirmation_status(id, dp(ALICE)), AffirmationStatus::Unknown);
    assert_eq!(s.affirmation_status(id, dp(BOB)), AffirmationStatus::Unknown);
    assert_eq!(s.locked_balance(dp(ALICE), TICKER), 0);
    assert_eq!(s.locked_balance(dp(BOB), TICKER2), 0);
    assert_eq!(s.balance(dp(ALICE), TICKER), 100_000 - amount);
    assert_eq!(s.balance(dp(BOB), TICKER), amount);
    assert_eq!(s.balance(dp(ALICE), TICKER2), amount);
    assert_eq!(s.balance(dp(BOB), TICKER2), 100_000 - amount);
}

#[test]
fn failed_execution() {
    let mut s = Settlement::new();
    let venue = create_token_and_venue(&mut s, TICKER, ALICE);
    create_token(&mut s, TICKER2, BOB);
    let id = s.instruction_counter();
    s.set_compliance(BOB, TICKER2, false).unwrap();
    let block_number = s.block + 1;
    let amount = 100u128;
    let legs = vec![fungible(ALICE, BOB, TICKER, amount), fungible(BOB, ALICE, TICKER2, amount)];
    s.add_instruction(ALICE, venue, SettlementType::SettleOnBlock(block_number), None, None, legs, None).unwrap();
    assert_eq!(s.scheduled_at(block_number), 1);
    s.affirm_instruction(ALICE, id, vec![dp(ALICE)]).unwrap();
    s.affirm_instruction(BOB, id, vec![dp(BOB)]).unwrap();
    assert_eq!(s.instruction_affirms_pending(id), 0);
    assert_eq!(s.instruction_status(id), InstructionStatus::Pending);

    s.next_block();
    assert_eq!(s.instruction_status(id), InstructionStatus::Failed);
    assert_eq!(s.locked_balance(dp(ALICE), TICKER), amount);
    assert_eq!(s.locked_balance(dp(BOB), TICKER2), amount);
    assert_eq!(s.balance(dp(ALICE), TICKER), 100_000);
    assert_eq!(s.balance(dp(BOB), TICKER2), 100_000);

    assert_eq!(
        s.execute_manual_instruction(ALICE, id, None, 2, 0, 0),
        Err(SettlementError::FailedToReleaseLockOrTransferAssets)
    );
    assert_eq!(s.instruction_status(id), InstructionStatus::Failed);
    assert_eq!(s.locked_balance(dp(ALICE), TICKER), amount);
}

#[test]
fn venue_filtering() {
    let mut s = Settlement::new();
    let venue = create_token_and_venue(&mut s, TICKER, ALICE);
    let block_number = s.block + 1;
    let id = s.instruction_counter();
    let legs = vec![fungible(ALICE, BOB, TICKER, 10)];
    s.add_instruction(ALICE, venue, SettlementType::SettleOnBlock(block_number), None, None, legs.clone(), None).unwrap();
    s.set_venue_filtering(ALICE, TICKER, true).unwrap();
    assert_eq!(
        s.add_instruction(ALICE, venue, SettlementType::SettleOnBlock(block_number), None, None, legs.clone(), None),
        Err(SettlementError::UnauthorizedVenue)
    );
    s.allow_venues(ALICE, TICKER, vec![venue]).unwrap();
    s.add_and_affirm_instruction(ALICE, venue, SettlementType::SettleOnBlock(block_number + 1), None, None, legs, vec![dp(ALICE)], None)
        .unwrap();
    s.affirm_instruction(ALICE, id, vec![dp(ALICE)]).unwrap();
    s.affirm_instruction(BOB, id, vec![dp(BOB)]).unwrap();
    s.affirm_instruction(BOB, id + 1, vec![dp(BOB)]).unwrap();

    s.next_block();
    assert_eq!(s.balance(dp(BOB), TICKER), 10);
    s.disallow_venues(ALICE, TICKER, vec![venue]).unwrap();
    // The filter is consulted when an instruction is created, not when it settles.
    s.next_block();
    assert_eq!(s.balance(dp(BOB), TICKER), 20);
}

#[test]
fn claim_multiple_receipts_during_authorization() {
    let mut s = Settlement::new();
    let venue = create_venue(&mut s, ALICE);
    let id = s.instruction_counter();
    let amount = 100u128;
    let legs = vec![
        Leg::OffChain { sender_identity: ALICE, receiver_identity: BOB, asset: TICKER, amount },
        Leg::OffChain { sender_identity: ALICE, receiver_identity: BOB, asset: TICKER2, amount },
    ];
    s.add_instruction(ALICE, venue, SettlementType::SettleOnAffirmation, None, None, legs, None).unwrap();
    assert_eq!(s.instruction_affirms_pending(id), 2);

    let receipt = |uid: u64, leg_id: u64, signature_valid: bool| ReceiptDetails {
        uid,
        instruction_id: id,
        leg_id,
        sender_identity: ALICE,
        receiver_identity: BOB,
        asset: if leg_id == 0 { TICKER } else { TICKER2 },
        amount,
        signer: ALICE,
        signature_valid,
    };
    assert_eq!(
        s.affirm_with_receipts(ALICE, id, vec![receipt(0, 0, true), receipt(0, 0, false)], vec![]),
        Err(SettlementError::DuplicateReceiptUid)
    );
    assert_eq!(s.offchain_affirmation(id, 0), AffirmationStatus::Pending);
    assert_eq!(s.instruction_affirms_pending(id), 2);

    s.affirm_with_receipts(ALICE, id, vec![receipt(0, 0, true), receipt(1, 1, true)], vec![]).unwrap();
    assert_eq!(s.instruction_affirms_pending(id), 0);
    assert_eq!(s.offchain_affirmation(id, 0), AffirmationStatus::Affirmed);
    assert_eq!(s.offchain_affirmation(id, 1), AffirmationStatus::Affirmed);
    assert_eq!(s.instruction_leg_status(id, 0), Some(LegStatus::ExecutionToBeSkipped { signer: ALICE, uid: 0 }));
    assert_eq!(s.instruction_leg_status(id, 1), Some(LegStatus::ExecutionToBeSkipped { signer: ALICE, uid: 1 }));
    assert_eq!(s.locked_balance(dp(ALICE), TICKER), 0);

    s.next_block();
    assert_eq!(s.instruction_status(id), InstructionStatus::Success(1));
    assert_eq!(s.affirmation_status(id, dp(ALICE)), AffirmationStatus::Unknown);
    assert_eq!(s.balance(dp(ALICE), TICKER), 0);
    assert_eq!(s.balance(dp(BOB), TICKER), 0);
}

#[test]
fn overload_instruction() {
    let mut s = Settlement::new();
    let venue = create_token_and_venue(&mut s, TICKER, ALICE);
    let leg_limit = settlement::types::MAX_FUNGIBLE_LEGS;
    let mut legs = vec![fungible(ALICE, BOB, TICKER, 1); leg_limit + 1];
    assert_eq!(
        s.add_instruction(ALICE, venue, SettlementType::SettleOnAffirmation, None, None, legs.clone(), None),
        Err(SettlementError::MaxNumberOfFungibleAssetsExceeded)
    );
    legs.truncate(leg_limit);
    assert!(s.add_instruction(ALICE, venue, SettlementType::SettleOnAffirmation, None, None, legs, None).is_ok());
}

#[test]
fn cross_portfolio_settlement() {
    let mut s = Settlement::new();
    let venue = create_token_and_venue(&mut s, TICKER, ALICE);
    let bob_user = PortfolioId::user_portfolio(BOB, 1);
    let id = s.instruction_counter();
    let amount = 100u128;
    s.add_instruction(
        ALICE,
        venue,
        SettlementType::SettleOnAffirmation,
        None,
        None,
        vec![Leg::Fungible { sender: dp(ALICE), receiver: bob_user, asset: TICKER, amount }], None,
    )
    .unwrap();
    // Bob affirms with his default portfolio, which takes no part.
    assert_eq!(s.affirm_instruction(BOB, id, vec![dp(BOB)]), Err(SettlementError::UnexpectedAffirmationStatus));
    s.affirm_instruction(ALICE, id, vec![dp(ALICE)]).unwrap();
    assert_eq!(s.locked_balance(dp(ALICE), TICKER), amount);
    s.affirm_instruction(BOB, id, vec![bob_user]).unwrap();
    s.next_block();
    assert_eq!(s.balance(dp(ALICE), TICKER), 100_000 - amount);
    assert_eq!(s.balance(dp(BOB), TICKER), 0);
    assert_eq!(s.balance(bob_user, TICKER), amount);
    assert_eq!(s.locked_balance(dp(ALICE), TICKER), 0);
}

#[test]
fn multiple_custodian_settlement() {
    let mut s = Settlement::new();
    let venue = create_token_and_venue(&mut s, TICKER, ALICE);
    let alice_user = PortfolioId::user_portfolio(ALICE, 1);
    // Alice moves some funds to a portfolio that Bob holds in custody.
    s.assign_custodian(ALICE, alice_user, BOB).unwrap();
    let id = s.instruction_counter();
    s.add_instruction(
        ALICE,
        venue,
        SettlementType::SettleOnAffirmation,
        None,
        None,
        vec![Leg::Fungible { sender: dp(ALICE), receiver: alice_user, asset: TICKER, amount: 100 }], None,
    )
    .unwrap();
    s.affirm_instruction(ALICE, id, vec![dp(ALICE)]).unwrap();
    assert_eq!(s.affirm_instruction(ALICE, id, vec![alice_user]), Err(SettlementError::UnauthorizedCustodian));
    s.affirm_instruction(BOB, id, vec![alice_user]).unwrap();
    s.next_block();
    assert_eq!(s.balance(alice_user, TICKER), 100);
    assert_eq!(s.balance(dp(ALICE), TICKER), 100_000 - 100);
}

#[test]
fn reject_instruction() {
    let mut s = Settlement::new();
    let venue = create_token_and_venue(&mut s, TICKER, ALICE);
    let amount = 100u128;
    let id = create_instruction(&mut s, ALICE, BOB, venue, TICKER, amount);
    assert_eq!(s.affirmation_status(id, dp(ALICE)), AffirmationStatus::Affirmed);
    assert_eq!(s.affirmation_status(id, dp(BOB)), AffirmationStatus::Pending);
    s.next_block();
    assert_eq!(s.reject_instruction(CHARLIE, id, dp(CHARLIE)), Err(SettlementError::CallerIsNotAParty));
    s.next_block();
    s.reject_instruction(ALICE, id, dp(ALICE)).unwrap();
    s.next_block();
    assert_eq!(s.affirmation_status(id, dp(ALICE)), AffirmationStatus::Unknown);
    assert_eq!(s.affirmation_status(id, dp(BOB)), AffirmationStatus::Unknown);
    assert_eq!(s.locked_balance(dp(ALICE), TICKER), 0);

    let id2 = create_instruction(&mut s, ALICE, BOB, venue, TICKER, amount);
    s.reject_instruction(BOB, id2, dp(BOB)).unwrap();
    s.next_block();
    assert_eq!(s.affirmation_status(id2, dp(ALICE)), AffirmationStatus::Unknown);
    assert_eq!(s.affirmation_status(id2, dp(BOB)), AffirmationStatus::Unknown);
    assert_eq!(s.locked_balance(dp(ALICE), TICKER), 0);
}

#[test]
fn dirty_storage_with_tx() {
    let mut s = Settlement::new();
    let venue = create_token_and_venue(&mut s, TICKER, ALICE);
    let id = s.instruction_counter();
    let (amount1, amount2) = (100u128, 50u128);
    let legs = vec![fungible(ALICE, BOB, TICKER, amount1), fungible(ALICE, BOB, TICKER, amount2)];
    s.add_instruction(ALICE, venue, SettlementType::SettleOnAffirmation, None, None, legs, None).unwrap();
    s.affirm_instruction(ALICE, id, vec![dp(ALICE)]).unwrap();
    assert_eq!(s.locked_balance(dp(ALICE), TICKER), amount1 + amount2);
    s.set_block(5);
    s.affirm_instruction(BOB, id, vec![dp(BOB)]).unwrap();
    assert_eq!(s.instruction_affirms_pending(id), 0);
    s.next_block();
    assert!(s.instructions[id as usize].legs.is_empty());
    assert_eq!(s.balance(dp(ALICE), TICKER), 100_000 - amount1 - amount2);
    assert_eq!(s.balance(dp(BOB), TICKER), amount1 + amount2);
}

#[test]
fn reject_failed_instruction() {
    let mut s = Settlement::new();
    let venue = create_token_and_venue(&mut s, TICKER, ALICE);
    let id = create_instruction(&mut s, ALICE, BOB, venue, TICKER, 100);
    s.affirm_instruction(BOB, id, vec![dp(BOB)]).unwrap();
    s.set_compliance(ALICE, TICKER, false).unwrap();
    s.next_block();
    assert_eq!(s.instruction_status(id), InstructionStatus::Failed);
    s.reject_instruction(BOB, id, dp(BOB)).unwrap();
    s.next_block();
    assert_eq!(s.instruction_status(id), InstructionStatus::Rejected(s.block - 1));
    assert_eq!(s.locked_balance(dp(ALICE), TICKER), 0);
}

#[test]
fn modify_venue_signers() {
    let mut s = Settlement::new();
    let venue = s.create_venue(ALICE, vec![], vec![ALICE, BOB, CHARLIE], VenueType::Exchange).unwrap();
    assert!(s.venue_signer(venue, ALICE));
    assert!(s.venue_signer(venue, BOB));
    assert!(s.venue_signer(venue, CHARLIE));
    assert!(!s.venue_signer(venue, DAVE));

    assert_eq!(s.update_venue_signers(BOB, venue, vec![DAVE], true), Err(SettlementError::Unauthorized));
    assert_eq!(s.update_venue_signers(ALICE, venue, vec![ALICE], true), Err(SettlementError::SignerAlreadyExists));
    assert_eq!(s.update_venue_signers(ALICE, venue, vec![DAVE], false), Err(SettlementError::SignerDoesNotExist));
    assert_eq!(s.update_venue_signers(ALICE, venue, vec![DAVE, DAVE], true), Err(SettlementError::SignerAlreadyExists));

    s.update_venue_signers(ALICE, venue, vec![DAVE], true).unwrap();
    assert!(s.venue_signer(venue, DAVE));
    s.update_venue_signers(ALICE, venue, vec![BOB, CHARLIE], false).unwrap();
    assert!(s.venue_signer(venue, ALICE));
    assert!(!s.venue_signer(venue, BOB));
    assert!(!s.venue_signer(venue, CHARLIE));
    assert!(s.venue_signer(venue, DAVE));
    assert_eq!(s.venue_signer_count(venue), 2);
}

#[test]
fn assert_number_of_venue_signers() {
    let mut s = Settlement::new();
    let max_signers = settlement::types::MAX_VENUE_SIGNERS as u64;
    let initial: Vec<u64> = (0..max_signers).map(|i| 1000 + i).collect();
    let too_many: Vec<u64> = (0..max_signers + 1).map(|i| 1000 + i).collect();
    assert_eq!(
        s.create_venue(ALICE, vec![], too_many, VenueType::Exchange),
        Err(SettlementError::NumberOfVenueSignersExceeded)
    );
    let venue = s.create_venue(ALICE, vec![], initial.clone(), VenueType::Exchange).unwrap();
    assert_eq!(s.venue_signer_count(venue), max_signers as usize);
    assert_eq!(
        s.update_venue_signers(ALICE, venue, vec![1051], true),
        Err(SettlementError::NumberOfVenueSignersExceeded)
    );
    s.update_venue_signers(ALICE, venue, initial[0..3].to_vec(), false).unwrap();
    assert_eq!(s.venue_signer_count(venue), max_signers as usize - 3);
    s.update_venue_signers(ALICE, venue, initial[0..2].to_vec(), true).unwrap();
    assert_eq!(s.venue_signer_count(venue), max_signers as usize - 1);
}

#[test]
fn reject_instruction_with_zero_amount() {
    let mut s = Settlement::new();
    let venue = create_token_and_venue(&mut s, TICKER, ALICE);
    assert_eq!(
        s.add_instruction(ALICE, venue, SettlementType::SettleOnAffirmation, None, None, vec![fungible(ALICE, BOB, TICKER, 0)], None),
        Err(SettlementError::ZeroAmount)
    );
}

#[test]
fn settle_manual_instruction() {
    let mut s = Settlement::new();
    let venue = create_token_and_venue(&mut s, TICKER, ALICE);
    let id = s.instruction_counter();
    let block_number = s.block + 1;
    let amount = 10u128;
    s.add_instruction(ALICE, venue, SettlementType::SettleManual(block_number), None, None, vec![fungible(ALICE, BOB, TICKER, amount)], None)
        .unwrap();
    assert_eq!(s.affirmation_status(id, dp(ALICE)), AffirmationStatus::Pending);
    assert_eq!(s.affirmation_status(id, dp(BOB)), AffirmationStatus::Pending);
    s.affirm_instruction(ALICE, id, vec![dp(ALICE)]).unwrap();
    s.affirm_instruction(BOB, id, vec![dp(BOB)]).unwrap();
    assert_eq!(
        s.execute_manual_instruction(ALICE, id, None, 1, 0, 0),
        Err(SettlementError::InstructionSettleBlockNotReached)
    );
    s.next_block();
    assert_eq!(s.execute_manual_instruction(BOB, id, None, 1, 0, 0), Err(SettlementError::Unauthorized));
    assert_eq!(
        s.execute_manual_instruction(ALICE, id, None, 0, 0, 0),
        Err(SettlementError::NumberOfFungibleTransfersUnderestimated)
    );
    s.execute_manual_instruction(ALICE, id, None, 1, 0, 0).unwrap();
    assert_eq!(s.affirmation_status(id, dp(ALICE)), AffirmationStatus::Unknown);
    assert_eq!(s.locked_balance(dp(ALICE), TICKER), 0);
    assert_eq!(s.balance(dp(ALICE), TICKER), 100_000 - amount);
    assert_eq!(s.balance(dp(BOB), TICKER), amount);
}

#[test]
fn settle_manual_instruction_with_portfolio() {
    let mut s = Settlement::new();
    let venue = create_token_and_venue(&mut s, TICKER, ALICE);
    let id = s.instruction_counter();
    let block_number = s.block + 1;
    let amount = 10u128;
    s.add_instruction(ALICE, venue, SettlementType::SettleManual(block_number), None, None, vec![fungible(ALICE, BOB, TICKER, amount)], None)
        .unwrap();
    s.affirm_instruction(ALICE, id, vec![dp(ALICE)]).unwrap();
    s.affirm_instruction(BOB, id, vec![dp(BOB)]).unwrap();
    s.next_block();
    assert_eq!(s.execute_manual_instruction(ALICE, id, Some(dp(BOB)), 1, 0, 0), Err(SettlementError::Unauthorized));
    assert_eq!(s.execute_manual_instruction(CHARLIE, id, Some(dp(CHARLIE)), 1, 0, 0), Err(SettlementError::Unauthorized));
    s.execute_manual_instruction(BOB, id, Some(dp(BOB)), 1, 0, 0).unwrap();
    assert_eq!(s.balance(dp(ALICE), TICKER), 100_000 - amount);
    assert_eq!(s.balance(dp(BOB), TICKER), amount);
}

#[test]
fn manually_execute_failed_instruction() {
    let mut s = Settlement::new();
    let venue = create_token_and_venue(&mut s, TICKER, ALICE);
    create_token(&mut s, TICKER2, ALICE);
    let legs = vec![fungible(ALICE, BOB, TICKER, 1), fungible(ALICE, BOB, TICKER2, 1)];
    let next = s.block + 1;
    s.add_and_affirm_instruction(ALICE, venue, SettlementType::SettleOnBlock(next), None, None, legs, vec![dp(ALICE)], None).unwrap();
    s.affirm_instruction(BOB, 0, vec![dp(BOB)]).unwrap();
    s.set_frozen(ALICE, TICKER, true).unwrap();
    s.next_block();
    assert_eq!(s.instruction_status(0), InstructionStatus::Failed);
    assert_eq!(s.balance(dp(ALICE), TICKER), 100_000);
    assert_eq!(s.balance(dp(ALICE), TICKER2), 100_000);

    s.set_frozen(ALICE, TICKER, false).unwrap();
    s.execute_manual_instruction(ALICE, 0, None, 2, 0, 0).unwrap();
    assert_eq!(s.balance(dp(BOB), TICKER), 1);
    assert_eq!(s.balance(dp(BOB), TICKER2), 1);
    assert_eq!(s.balance(dp(ALICE), TICKER), 99_999);
    assert_eq!(s.balance(dp(ALICE), TICKER2), 99_999);
    assert_eq!(s.instruction_status(0), InstructionStatus::Success(s.block));
}

#[test]
fn multiple_portfolio_settlement() {
    let mut s = Settlement::new();
    let venue = create_token_and_venue(&mut s, TICKER, ALICE);
    let alice_num = 1u64;
    let bob_num = 1u64;
    let alice_user = PortfolioId::user_portfolio(ALICE, alice_num);
    let bob_user = PortfolioId::user_portfolio(BOB, bob_num);
    let id = s.instruction_counter();
    let amount = 100u128;
    let legs = vec![
        Leg::Fungible { sender: alice_user, receiver: dp(BOB), asset: TICKER, amount },
        Leg::Fungible { sender: dp(ALICE), receiver: bob_user, asset: TICKER, amount },
    ];
    s.add_instruction(ALICE, venue, SettlementType::SettleOnAffirmation, None, None, legs, None).unwrap();
    assert_eq!(s.balance(dp(ALICE), TICKER), 100_000);
    assert_eq!(s.balance(bob_user, TICKER), 0);
    assert_eq!(s.locked_balance(dp(ALICE), TICKER), 0);

    s.affirm_instruction(ALICE, id, vec![dp(ALICE)]).unwrap();
    assert_eq!(s.balance(dp(ALICE), TICKER), 100_000);
    assert_eq!(s.locked_balance(dp(ALICE), TICKER), amount);
    assert_eq!(
        s.withdraw_affirmation(ALICE, id, vec![dp(ALICE), alice_user]),
        Err(SettlementError::UnexpectedAffirmationStatus)
    );
    assert_eq!(s.affirm_instruction(ALICE, id, vec![alice_user]), Err(SettlementError::InsufficientPortfolioBalance));

    s.move_portfolio_funds(ALICE, dp(ALICE), alice_user, TICKER, amount).unwrap();
    s.set_block(15);
    s.affirm_instruction(ALICE, id, vec![alice_user]).unwrap();
    assert_eq!(s.balance(dp(ALICE), TICKER), 100_000 - amount);
    assert_eq!(s.balance(alice_user, TICKER), amount);
    assert_eq!(s.locked_balance(dp(ALICE), TICKER), amount);
    assert_eq!(s.locked_balance(alice_user, TICKER), amount);

    s.next_block();
    s.affirm_instruction(BOB, id, vec![dp(BOB), bob_user]).unwrap();
    s.next_block();
    assert_eq!(s.balance(dp(ALICE), TICKER), 100_000 - amount * 2);
    assert_eq!(s.balance(alice_user, TICKER), 0);
    assert_eq!(s.balance(dp(BOB), TICKER), amount);
    assert_eq!(s.balance(bob_user, TICKER), amount);
    assert_eq!(s.locked_balance(dp(ALICE), TICKER), 0);
}

#[test]
fn move_portfolio_funds_rules() {
    let mut s = Settlement::new();
    create_token(&mut s, TICKER, ALICE);
    let alice_user = PortfolioId::user_portfolio(ALICE, 1);
    assert_eq!(s.move_portfolio_funds(BOB, dp(ALICE), alice_user, TICKER, 1), Err(SettlementError::UnauthorizedCustodian));
    assert_eq!(s.move_portfolio_funds(ALICE, dp(ALICE), dp(ALICE), TICKER, 1), Err(SettlementError::SameSenderReceiver));
    assert_eq!(
        s.move_portfolio_funds(ALICE, dp(ALICE), alice_user, TICKER, 100_001),
        Err(SettlementError::InsufficientPortfolioBalance)
    );
    s.move_portfolio_funds(ALICE, dp(ALICE), alice_user, TICKER, 40).unwrap();
    assert_eq!(s.balance(dp(ALICE), TICKER), 99_960);
    assert_eq!(s.balance(alice_user, TICKER), 40);
}
