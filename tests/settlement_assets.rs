use settlement::{
    AffirmationStatus, InstructionStatus, Leg, LegStatus, PortfolioId, ReceiptDetails, Settlement,
    SettlementError, SettlementType, SubstrateWeight, VenueType, Weight,
};

const ALICE: u64 = 1;
const BOB: u64 = 2;
const CHARLIE: u64 = 3;
const DAVE: u64 = 4;
const TICKER: u64 = 0x4143_4d45;
const TICKER2: u64 = 0x4143_4d45_32;

fn dp(did: u64) -> PortfolioId {
    PortfolioId::default_portfolio(did)
}

fn create_token(s: &mut Settlement, ticker: u64, owner: u64) {
    s.create_asset(owner, ticker).unwrap();
    s.issue(owner, ticker, 100_000).unwrap();
    s.set_compliance(owner, ticker, true).unwrap();
}

fn create_venue(s: &mut Settlement, user: u64) -> u64 {
    s.create_venue(user, vec![], vec![user], VenueType::Other).unwrap()
}

fn create_token_and_venue(s: &mut Settlement, ticker: u64, user: u64) -> u64 {
    create_token(s, ticker, user);
    create_venue(s, user)
}

fn nft_collection(s: &mut Settlement, ticker: u64, owner: u64, ids: &[u64]) {
    s.create_asset(owner, ticker).unwrap();
    s.set_compliance(owner, ticker, true).unwrap();
    for id in ids {
        s.issue_nft(owner, ticker, *id).unwrap();
    }
}

fn nft_leg(from: u64, to: u64, ticker: u64, ids: Vec<u64>) -> Leg {
    Leg::NonFungible { sender: dp(from), receiver: dp(to), asset: ticker, ids }
}

fn fungible(from: PortfolioId, to: PortfolioId, ticker: u64, amount: u128) -> Leg {
    Leg::Fungible { sender: from, receiver: to, asset: ticker, amount }
}

#[test]
fn add_nft_instruction_with_duplicated_nfts() {
    let mut s = Settlement::new();
    let venue = create_token_and_venue(&mut s, TICKER, ALICE);
    assert_eq!(
        s.add_instruction(ALICE, venue, SettlementType::SettleOnAffirmation, None, None, vec![nft_leg(ALICE, BOB, TICKER, vec![1, 1])], None),
        Err(SettlementError::DuplicatedNFTId)
    );
}

#[test]
fn add_nft_instruction_exceeding_nfts() {
    let mut s = Settlement::new();
    let venue = create_token_and_venue(&mut s, TICKER, ALICE);
    let ids: Vec<u64> = (1..=11).collect();
    assert_eq!(
        s.add_instruction(ALICE, venue, SettlementType::SettleOnAffirmation, None, None, vec![nft_leg(ALICE, BOB, TICKER, ids)], None),
        Err(SettlementError::MaxNumberOfNFTsPerLegExceeded)
    );
}

#[test]
fn add_nft_instruction() {
    let mut s = Settlement::new();
    let venue = create_token_and_venue(&mut s, TICKER, ALICE);
    assert!(s
        .add_instruction(ALICE, venue, SettlementType::SettleOnAffirmation, None, None, vec![nft_leg(ALICE, BOB, TICKER, vec![1])], None)
        .is_ok());
}

#[test]
fn add_and_affirm_nft_instruction() {
    let mut s = Settlement::new();
    nft_collection(&mut s, TICKER, ALICE, &[1]);
    let venue = create_venue(&mut s, ALICE);
    let id = s.instruction_counter();
    s.add_and_affirm_instruction(
        ALICE,
        venue,
        SettlementType::SettleOnAffirmation,
        None,
        None,
        vec![nft_leg(ALICE, BOB, TICKER, vec![1])],
        vec![dp(ALICE)], None,
    )
    .unwrap();
    assert_eq!(s.ledger.owner_of_nft(TICKER, 1), Some(dp(ALICE)));
    assert!(s.ledger.is_nft_locked(TICKER, 1));

    s.affirm_instruction(BOB, id, vec![dp(BOB)]).unwrap();
    s.next_block();
    assert_eq!(s.ledger.owner_of_nft(TICKER, 1), Some(dp(BOB)));
    assert!(!s.ledger.is_nft_locked(TICKER, 1));
    assert_eq!(s.instruction_status(id), InstructionStatus::Success(1));
}

#[test]
fn add_and_affirm_nft_not_owned() {
    let mut s = Settlement::new();
    nft_collection(&mut s, TICKER, ALICE, &[1]);
    let venue = create_venue(&mut s, ALICE);
    let before = s.instruction_counter();
    assert_eq!(
        s.add_and_affirm_instruction(
            ALICE,
            venue,
            SettlementType::SettleOnAffirmation,
            None,
            None,
            vec![nft_leg(ALICE, BOB, TICKER, vec![2])],
            vec![dp(ALICE)], None,
        ),
        Err(SettlementError::NFTNotFoundInPortfolio)
    );
    assert_eq!(s.instruction_counter(), before);
}

#[test]
fn add_same_nft_different_legs() {
    let mut s = Settlement::new();
    nft_collection(&mut s, TICKER, ALICE, &[1]);
    let venue = create_venue(&mut s, ALICE);
    let legs = vec![nft_leg(ALICE, BOB, TICKER, vec![1]), nft_leg(ALICE, BOB, TICKER, vec![1])];
    assert_eq!(
        s.add_and_affirm_instruction(ALICE, venue, SettlementType::SettleOnAffirmation, None, None, legs, vec![dp(ALICE)], None),
        Err(SettlementError::DuplicatedNFTId)
    );
}

#[test]
fn nft_already_locked() {
    let mut s = Settlement::new();
    nft_collection(&mut s, TICKER, ALICE, &[1]);
    let venue = create_venue(&mut s, ALICE);
    let legs = vec![nft_leg(ALICE, BOB, TICKER, vec![1])];
    s.add_and_affirm_instruction(ALICE, venue, SettlementType::SettleOnAffirmation, None, None, legs.clone(), vec![dp(ALICE)], None)
        .unwrap();
    assert_eq!(
        s.add_and_affirm_instruction(ALICE, venue, SettlementType::SettleOnAffirmation, None, None, legs, vec![dp(ALICE)], None),
        Err(SettlementError::NFTAlreadyLocked)
    );
}

#[test]
fn add_instruction_unexpected_offchain_asset() {
    let mut s = Settlement::new();
    let venue = create_venue(&mut s, ALICE);
    assert_eq!(
        s.add_instruction(ALICE, venue, SettlementType::SettleOnAffirmation, None, None, vec![nft_leg(ALICE, BOB, TICKER, vec![1])], None),
        Err(SettlementError::UnexpectedOFFChainAsset)
    );
    assert_eq!(
        s.add_instruction(ALICE, venue, SettlementType::SettleOnAffirmation, None, None, vec![fungible(dp(ALICE), dp(BOB), TICKER, 1)], None),
        Err(SettlementError::UnexpectedOFFChainAsset)
    );
}

#[test]
fn add_and_execute_offchain_instruction() {
    let mut s = Settlement::new();
    let venue = create_token_and_venue(&mut s, TICKER, ALICE);
    let id = 0u64;
    let legs = vec![Leg::OffChain { sender_identity: CHARLIE, receiver_identity: BOB, asset: TICKER, amount: 1 }];
    let receipts = vec![ReceiptDetails {
        uid: 0,
        instruction_id: id,
        leg_id: 0,
        sender_identity: CHARLIE,
        receiver_identity: BOB,
        asset: TICKER,
        amount: 1,
        signer: ALICE,
        signature_valid: true,
    }];
    let next = s.block + 1;
    s.add_instruction(ALICE, venue, SettlementType::SettleManual(next), None, None, legs, None).unwrap();
    s.affirm_with_receipts(ALICE, id, receipts, vec![]).unwrap();
    s.next_block();
    assert_eq!(s.execute_manual_instruction(DAVE, id, None, 0, 0, 1), Err(SettlementError::Unauthorized));
    s.execute_manual_instruction(CHARLIE, id, None, 0, 0, 1).unwrap();
    assert_eq!(s.instruction_status(id), InstructionStatus::Success(1));
}

#[test]
fn affirm_offchain_asset_without_receipt() {
    let mut s = Settlement::new();
    let venue = create_venue(&mut s, ALICE);
    let legs = vec![Leg::OffChain { sender_identity: ALICE, receiver_identity: BOB, asset: TICKER, amount: 1 }];
    s.add_instruction(ALICE, venue, SettlementType::SettleOnAffirmation, None, None, legs, None).unwrap();
    assert_eq!(s.affirm_instruction(ALICE, 0, vec![dp(ALICE)]), Err(SettlementError::UnexpectedAffirmationStatus));
}

#[test]
fn receipt_errors() {
    let mut s = Settlement::new();
    let venue = create_token_and_venue(&mut s, TICKER, ALICE);
    let legs = vec![
        Leg::OffChain { sender_identity: ALICE, receiver_identity: BOB, asset: TICKER2, amount: 5 },
        fungible(dp(ALICE), dp(BOB), TICKER, 5),
    ];
    s.add_instruction(ALICE, venue, SettlementType::SettleOnAffirmation, None, None, legs, None).unwrap();
    let r = |uid: u64, instruction_id: u64, leg_id: u64, signer: u64, signature_valid: bool| ReceiptDetails {
        uid,
        instruction_id,
        leg_id,
        sender_identity: ALICE,
        receiver_identity: BOB,
        asset: TICKER2,
        amount: 5,
        signer,
        signature_valid,
    };
    let wrong_amount = ReceiptDetails { amount: 6, ..r(0, 0, 0, ALICE, true) };
    assert_eq!(s.affirm_with_receipts(ALICE, 0, vec![wrong_amount], vec![]), Err(SettlementError::ReceiptDoesNotMatchLeg));
    assert_eq!(s.affirm_with_receipts(ALICE, 0, vec![r(0, 1, 0, ALICE, true)], vec![]), Err(SettlementError::ReceiptInstructionIdMismatch));
    assert_eq!(s.affirm_with_receipts(ALICE, 0, vec![r(0, 0, 1, ALICE, true)], vec![]), Err(SettlementError::ReceiptForInvalidLegType));
    assert_eq!(s.affirm_with_receipts(ALICE, 0, vec![r(0, 0, 0, BOB, true)], vec![]), Err(SettlementError::UnauthorizedSigner));
    assert_eq!(s.affirm_with_receipts(ALICE, 0, vec![r(0, 0, 0, ALICE, false)], vec![]), Err(SettlementError::InvalidSignature));
    assert_eq!(s.affirm_with_receipts(ALICE, 5, vec![], vec![]), Err(SettlementError::UnknownInstruction));
    // Receipt and portfolio affirmation together: the portfolio part fails, so the receipt is not used.
    assert_eq!(
        s.affirm_with_receipts(BOB, 0, vec![r(7, 0, 0, ALICE, true)], vec![dp(ALICE)]),
        Err(SettlementError::UnauthorizedCustodian)
    );
    assert_eq!(s.offchain_affirmation(0, 0), AffirmationStatus::Pending);
    s.affirm_with_receipts(ALICE, 0, vec![r(7, 0, 0, ALICE, true)], vec![dp(ALICE)]).unwrap();
    assert_eq!(s.offchain_affirmation(0, 0), AffirmationStatus::Affirmed);
    assert_eq!(s.locked_balance(dp(ALICE), TICKER), 5);
    assert_eq!(s.instruction_affirms_pending(0), 1);

    s.add_instruction(
        ALICE,
        venue,
        SettlementType::SettleOnAffirmation,
        None,
        None,
        vec![Leg::OffChain { sender_identity: ALICE, receiver_identity: BOB, asset: TICKER2, amount: 5 }], None,
    )
    .unwrap();
    assert_eq!(s.affirm_with_receipts(ALICE, 1, vec![r(7, 1, 0, ALICE, true)], vec![]), Err(SettlementError::ReceiptAlreadyClaimed));
}

#[test]
fn add_instruction_with_pre_affirmed_tickers() {
    let mut s = Settlement::new();
    let venue = create_token_and_venue(&mut s, TICKER, ALICE);
    let bob_user = PortfolioId::user_portfolio(BOB, 1);
    s.pre_approve_ticker(ALICE, TICKER);
    s.pre_approve_ticker(BOB, TICKER);
    let legs = vec![fungible(dp(ALICE), dp(BOB), TICKER, 1_000_000), fungible(dp(ALICE), bob_user, TICKER, 1_000_000)];
    s.add_instruction(ALICE, venue, SettlementType::SettleOnAffirmation, None, None, legs, None).unwrap();
    // Only the sender still has to affirm.
    assert_eq!(s.affirmation_status(0, dp(ALICE)), AffirmationStatus::Pending);
    assert_eq!(s.affirmation_status(0, dp(BOB)), AffirmationStatus::Affirmed);
    assert_eq!(s.affirmation_status(0, bob_user), AffirmationStatus::Affirmed);
    assert_eq!(s.instruction_affirms_pending(0), 1);
}

#[test]
fn add_instruction_with_pre_affirmed_tickers_with_assigned_custodian() {
    let mut s = Settlement::new();
    let venue = create_token_and_venue(&mut s, TICKER, ALICE);
    let bob_user = PortfolioId::user_portfolio(BOB, 1);
    s.assign_custodian(BOB, bob_user, ALICE).unwrap();
    s.pre_approve_ticker(BOB, TICKER);
    let legs = vec![fungible(dp(ALICE), dp(BOB), TICKER, 1_000_000), fungible(dp(ALICE), bob_user, TICKER, 1_000_000)];
    s.add_instruction(ALICE, venue, SettlementType::SettleOnAffirmation, None, None, legs, None).unwrap();
    assert_eq!(s.affirmation_status(0, dp(ALICE)), AffirmationStatus::Pending);
    assert_eq!(s.affirmation_status(0, dp(BOB)), AffirmationStatus::Affirmed);
    assert_eq!(s.affirmation_status(0, bob_user), AffirmationStatus::Pending);
    assert_eq!(s.instruction_affirms_pending(0), 2);
}

#[test]
fn add_instruction_with_pre_affirmed_portfolio() {
    let mut s = Settlement::new();
    let venue = create_token_and_venue(&mut s, TICKER, ALICE);
    let alice_user = PortfolioId::user_portfolio(ALICE, 1);
    let bob_user = PortfolioId::user_portfolio(BOB, 1);
    s.pre_approve_portfolio(BOB, bob_user, TICKER).unwrap();
    s.pre_approve_portfolio(ALICE, alice_user, TICKER).unwrap();
    assert_eq!(s.pre_approve_portfolio(ALICE, bob_user, TICKER), Err(SettlementError::UnauthorizedCustodian));
    let legs = vec![fungible(dp(ALICE), dp(BOB), TICKER, 1_000_000), fungible(dp(ALICE), bob_user, TICKER, 1_000_000)];
    s.add_instruction(ALICE, venue, SettlementType::SettleOnAffirmation, None, None, legs, None).unwrap();
    assert_eq!(s.affirmation_status(0, dp(ALICE)), AffirmationStatus::Pending);
    assert_eq!(s.affirmation_status(0, dp(BOB)), AffirmationStatus::Pending);
    assert_eq!(s.affirmation_status(0, bob_user), AffirmationStatus::Affirmed);
    assert_eq!(s.instruction_affirms_pending(0), 2);
}

#[test]
fn add_instruction_with_single_pre_affirmed() {
    let mut s = Settlement::new();
    let venue = create_token_and_venue(&mut s, TICKER, ALICE);
    create_token(&mut s, TICKER2, ALICE);
    s.pre_approve_ticker(BOB, TICKER);
    s.pre_approve_ticker(ALICE, TICKER);
    s.pre_approve_ticker(ALICE, TICKER2);
    // Bob consents to TICKER only, and also receives TICKER2.
    let legs = vec![fungible(dp(ALICE), dp(BOB), TICKER, 1), fungible(dp(ALICE), dp(BOB), TICKER2, 1)];
    s.add_instruction(ALICE, venue, SettlementType::SettleOnAffirmation, None, None, legs, None).unwrap();
    assert_eq!(s.affirmation_status(0, dp(ALICE)), AffirmationStatus::Pending);
    assert_eq!(s.affirmation_status(0, dp(BOB)), AffirmationStatus::Pending);
    assert_eq!(s.instruction_affirms_pending(0), 2);
}

#[test]
fn add_and_affirm_with_receipts_nfts() {
    let mut s = Settlement::new();
    nft_collection(&mut s, TICKER, ALICE, &[1]);
    let venue = create_venue(&mut s, ALICE);
    s.add_instruction(ALICE, venue, SettlementType::SettleOnAffirmation, None, None, vec![nft_leg(ALICE, BOB, TICKER, vec![1])], None)
        .unwrap();
    let receipt = ReceiptDetails {
        uid: 0,
        instruction_id: 0,
        leg_id: 0,
        sender_identity: ALICE,
        receiver_identity: BOB,
        asset: TICKER,
        amount: 1,
        signer: ALICE,
        signature_valid: true,
    };
    assert_eq!(s.affirm_with_receipts(ALICE, 0, vec![receipt], vec![]), Err(SettlementError::ReceiptForInvalidLegType));
    assert_eq!(s.instruction_affirms_pending(0), 2);
}

#[test]
fn affirmation_exemption_and_removed_consent() {
    let mut s = Settlement::new();
    let venue = create_token_and_venue(&mut s, TICKER, ALICE);
    s.set_affirmation_exemption(TICKER, true).unwrap();
    s.add_instruction(ALICE, venue, SettlementType::SettleOnAffirmation, None, None, vec![fungible(dp(ALICE), dp(BOB), TICKER, 1)], None)
        .unwrap();
    assert_eq!(s.affirmation_status(0, dp(BOB)), AffirmationStatus::Affirmed);
    assert_eq!(s.set_affirmation_exemption(TICKER2, true), Err(SettlementError::UnknownAsset));

    s.set_affirmation_exemption(TICKER, false).unwrap();
    s.pre_approve_ticker(BOB, TICKER);
    s.remove_ticker_pre_approval(BOB, TICKER);
    s.add_instruction(ALICE, venue, SettlementType::SettleOnAffirmation, None, None, vec![fungible(dp(ALICE), dp(BOB), TICKER, 1)], None)
        .unwrap();
    assert_eq!(s.affirmation_status(1, dp(BOB)), AffirmationStatus::Pending);
    // The earlier instruction keeps the status it was created with.
    assert_eq!(s.affirmation_status(0, dp(BOB)), AffirmationStatus::Affirmed);
}

#[test]
fn creation_errors() {
    let mut s = Settlement::new();
    let venue = create_token_and_venue(&mut s, TICKER, ALICE);
    let leg = fungible(dp(ALICE), dp(BOB), TICKER, 1);
    assert_eq!(s.add_instruction(ALICE, 7, SettlementType::SettleOnAffirmation, None, None, vec![leg.clone()], None), Err(SettlementError::InvalidVenue));
    assert_eq!(s.add_instruction(BOB, venue, SettlementType::SettleOnAffirmation, None, None, vec![leg.clone()], None), Err(SettlementError::Unauthorized));
    assert_eq!(s.add_instruction(ALICE, venue, SettlementType::SettleOnBlock(0), None, None, vec![leg.clone()], None), Err(SettlementError::SettleOnPastBlock));
    assert_eq!(s.add_instruction(ALICE, venue, SettlementType::SettleOnAffirmation, None, None, vec![], None), Err(SettlementError::NoLegs));
    assert_eq!(
        s.add_instruction(ALICE, venue, SettlementType::SettleOnAffirmation, None, None, vec![fungible(dp(ALICE), dp(ALICE), TICKER, 1)], None),
        Err(SettlementError::SameSenderReceiver)
    );
    assert_eq!(
        s.add_instruction(ALICE, venue, SettlementType::SettleOnAffirmation, None, None, vec![nft_leg(ALICE, BOB, TICKER, vec![])], None),
        Err(SettlementError::EmptyNFTLeg)
    );
    let offchain = Leg::OffChain { sender_identity: ALICE, receiver_identity: BOB, asset: TICKER2, amount: 1 };
    assert_eq!(
        s.add_instruction(ALICE, venue, SettlementType::SettleOnAffirmation, None, None, vec![offchain; 11], None),
        Err(SettlementError::MaxNumberOfOffChainAssetsExceeded)
    );
    let many: Vec<Leg> = (0..11).map(|k| nft_leg(ALICE, BOB, TICKER, (k * 10..k * 10 + 10).collect())).collect();
    assert_eq!(
        s.add_instruction(ALICE, venue, SettlementType::SettleOnAffirmation, None, None, many, None),
        Err(SettlementError::MaxNumberOfNFTsExceeded)
    );
    assert_eq!(s.instruction_counter(), 0);
}

// One test per general property, on concrete values.

#[test]
fn denied_leg_moves_nothing() {
    let mut s = Settlement::new();
    let venue = create_token_and_venue(&mut s, TICKER, ALICE);
    create_token(&mut s, TICKER2, BOB);
    let legs = vec![fungible(dp(ALICE), dp(BOB), TICKER, 10), fungible(dp(BOB), dp(ALICE), TICKER2, 20)];
    s.add_instruction(ALICE, venue, SettlementType::SettleOnAffirmation, None, None, legs, None).unwrap();
    s.affirm_instruction(ALICE, 0, vec![dp(ALICE)]).unwrap();
    s.set_frozen(BOB, TICKER2, true).unwrap();
    s.affirm_instruction(BOB, 0, vec![dp(BOB)]).unwrap();
    s.next_block();
    assert_eq!(s.instruction_status(0), InstructionStatus::Failed);
    assert_eq!(s.balance(dp(ALICE), TICKER), 100_000);
    assert_eq!(s.balance(dp(BOB), TICKER), 0);
    assert_eq!(s.balance(dp(BOB), TICKER2), 100_000);
    assert_eq!(s.balance(dp(ALICE), TICKER2), 0);
    assert_eq!(s.locked_balance(dp(ALICE), TICKER), 10);
    assert_eq!(s.locked_balance(dp(BOB), TICKER2), 20);
}

#[test]
fn settlement_conserves_amounts() {
    let mut s = Settlement::new();
    let venue = create_token_and_venue(&mut s, TICKER, ALICE);
    s.issue(ALICE, TICKER, 5).unwrap();
    let id = s.add_and_affirm_instruction(
        ALICE,
        venue,
        SettlementType::SettleOnAffirmation,
        None,
        None,
        vec![fungible(dp(ALICE), dp(BOB), TICKER, 37)],
        vec![dp(ALICE)], None,
    )
    .unwrap();
    let locked_before = s.locked_balance(dp(ALICE), TICKER);
    assert_eq!(locked_before, 37);
    s.affirm_instruction(BOB, id, vec![dp(BOB)]).unwrap();
    s.next_block();
    assert_eq!(s.balance(dp(ALICE), TICKER), 100_005 - 37);
    assert_eq!(s.balance(dp(BOB), TICKER), 37);
    assert_eq!(s.locked_balance(dp(ALICE), TICKER), 0);
}

#[test]
fn pending_counter_matches_statuses() {
    let mut s = Settlement::new();
    let venue = create_token_and_venue(&mut s, TICKER, ALICE);
    let legs = vec![
        fungible(dp(ALICE), dp(BOB), TICKER, 1),
        fungible(dp(ALICE), dp(CHARLIE), TICKER, 1),
        Leg::OffChain { sender_identity: DAVE, receiver_identity: BOB, asset: TICKER2, amount: 3 },
    ];
    s.add_instruction(ALICE, venue, SettlementType::SettleOnAffirmation, None, None, legs, None).unwrap();
    let count = |s: &Settlement| {
        let inst = &s.instructions[0];
        let parties = inst.parties.iter().filter(|p| p.status == AffirmationStatus::Pending).count();
        let receipts = inst.offchain.iter().filter(|a| **a == AffirmationStatus::Pending).count();
        (parties + receipts) as u64
    };
    assert_eq!(s.instruction_affirms_pending(0), 4);
    assert_eq!(count(&s), 4);
    s.affirm_instruction(CHARLIE, 0, vec![dp(CHARLIE)]).unwrap();
    assert_eq!(s.instruction_affirms_pending(0), count(&s));
    assert_eq!(count(&s), 3);
    s.withdraw_affirmation(CHARLIE, 0, vec![dp(CHARLIE)]).unwrap();
    assert_eq!(s.instruction_affirms_pending(0), count(&s));
    assert_eq!(count(&s), 4);
}

#[test]
fn no_second_lock_for_one_affirmation() {
    let mut s = Settlement::new();
    let venue = create_token_and_venue(&mut s, TICKER, ALICE);
    s.add_instruction(ALICE, venue, SettlementType::SettleManual(5), None, None, vec![fungible(dp(ALICE), dp(BOB), TICKER, 60_000)], None)
        .unwrap();
    s.add_instruction(ALICE, venue, SettlementType::SettleManual(5), None, None, vec![fungible(dp(ALICE), dp(BOB), TICKER, 60_000)], None)
        .unwrap();
    s.affirm_instruction(ALICE, 0, vec![dp(ALICE)]).unwrap();
    assert_eq!(s.affirm_instruction(ALICE, 0, vec![dp(ALICE)]), Err(SettlementError::UnexpectedAffirmationStatus));
    assert_eq!(s.affirm_instruction(ALICE, 1, vec![dp(ALICE)]), Err(SettlementError::InsufficientPortfolioBalance));
    assert_eq!(s.locked_balance(dp(ALICE), TICKER), 60_000);
    assert_eq!(s.withdraw_affirmation(ALICE, 1, vec![dp(ALICE)]), Err(SettlementError::UnexpectedAffirmationStatus));
}

#[test]
fn rejecting_finished_instruction_fails() {
    let mut s = Settlement::new();
    let venue = create_token_and_venue(&mut s, TICKER, ALICE);
    assert_eq!(s.reject_instruction(ALICE, 3, dp(ALICE)), Err(SettlementError::UnknownInstruction));
    s.add_instruction(ALICE, venue, SettlementType::SettleOnAffirmation, None, None, vec![fungible(dp(ALICE), dp(BOB), TICKER, 5)], None)
        .unwrap();
    s.reject_instruction(ALICE, 0, dp(ALICE)).unwrap();
    assert_eq!(s.instruction_status(0), InstructionStatus::Rejected(0));
    assert_eq!(s.reject_instruction(ALICE, 0, dp(ALICE)), Err(SettlementError::InstructionNotPending));
    assert_eq!(s.instruction_status(0), InstructionStatus::Rejected(0));
    assert_eq!(s.balance(dp(ALICE), TICKER), 100_000);
}

#[test]
fn withdrawn_affirmation_releases_lock() {
    let mut s = Settlement::new();
    let venue = create_token_and_venue(&mut s, TICKER, ALICE);
    s.add_instruction(ALICE, venue, SettlementType::SettleOnAffirmation, None, None, vec![fungible(dp(ALICE), dp(BOB), TICKER, 100)], None)
        .unwrap();
    s.affirm_instruction(ALICE, 0, vec![dp(ALICE)]).unwrap();
    assert_eq!(s.locked_balance(dp(ALICE), TICKER), 100);
    assert_eq!(s.instruction_leg_status(0, 0), Some(LegStatus::ExecutionPending));
    assert_eq!(s.withdraw_affirmation(BOB, 0, vec![dp(ALICE)]), Err(SettlementError::UnauthorizedCustodian));
    s.withdraw_affirmation(ALICE, 0, vec![dp(ALICE)]).unwrap();
    assert_eq!(s.locked_balance(dp(ALICE), TICKER), 0);
    assert_eq!(s.instruction_leg_status(0, 0), Some(LegStatus::PendingTokenLock));
    assert_eq!(s.affirmation_status(0, dp(ALICE)), AffirmationStatus::Pending);
}

#[test]
fn scheduled_on_block_waits_for_its_block() {
    let mut s = Settlement::new();
    let venue = create_token_and_venue(&mut s, TICKER, ALICE);
    s.add_instruction(ALICE, venue, SettlementType::SettleOnBlock(3), None, None, vec![fungible(dp(ALICE), dp(BOB), TICKER, 9)], None)
        .unwrap();
    s.affirm_instruction(ALICE, 0, vec![dp(ALICE)]).unwrap();
    s.affirm_instruction(BOB, 0, vec![dp(BOB)]).unwrap();
    s.next_block();
    s.next_block();
    assert_eq!(s.balance(dp(BOB), TICKER), 0);
    assert_eq!(s.next_block(), vec![0]);
    assert_eq!(s.balance(dp(BOB), TICKER), 9);
    assert_eq!(s.instruction_status(0), InstructionStatus::Success(3));
}

#[test]
fn ledger_overflow_refused() {
    let mut s = Settlement::new();
    s.create_asset(ALICE, TICKER).unwrap();
    s.issue(ALICE, TICKER, u128::MAX - 1).unwrap();
    assert_eq!(s.issue(ALICE, TICKER, 2), Err(SettlementError::BalanceOverflow));
    assert_eq!(s.issue(BOB, TICKER, 1), Err(SettlementError::Unauthorized));
    assert_eq!(s.issue(ALICE, TICKER2, 1), Err(SettlementError::UnknownAsset));
    assert_eq!(s.create_asset(BOB, TICKER), Err(SettlementError::AssetAlreadyExists));
}

#[test]
fn asset_weights() {
    assert_eq!(SubstrateWeight::freeze(), Weight { ref_time: 46_325_000 + 6 * 25_000_000 + 100_000_000, proof_size: 0 });
    assert_eq!(SubstrateWeight::exempt_ticker_affirmation(), Weight { ref_time: 12_364_000 + 100_000_000, proof_size: 0 });
    assert_eq!(SubstrateWeight::pre_approve_ticker().ref_time, 27_794_000 + 25_000_000 + 100_000_000);
    assert_eq!(SubstrateWeight::base_transfer().ref_time, 186_484_000 + 18 * 25_000_000 + 9 * 100_000_000);
    assert_eq!(Weight::from_ref_time(u64::MAX).saturating_add(Weight::from_ref_time(1)).ref_time, u64::MAX);
    assert_eq!(Weight::from_ref_time(3).saturating_mul(4).ref_time, 12);
}

#[test]
fn manual_execution_errors() {
    let mut s = Settlement::new();
    nft_collection(&mut s, TICKER2, ALICE, &[1, 2]);
    let venue = create_token_and_venue(&mut s, TICKER, ALICE);
    s.add_instruction(ALICE, venue, SettlementType::SettleOnAffirmation, None, None, vec![fungible(dp(ALICE), dp(BOB), TICKER, 1)], None)
        .unwrap();
    assert_eq!(s.execute_manual_instruction(ALICE, 0, None, 1, 0, 0), Err(SettlementError::InstructionNotFailed));

    let legs = vec![
        nft_leg(ALICE, BOB, TICKER2, vec![1, 2]),
        Leg::OffChain { sender_identity: ALICE, receiver_identity: BOB, asset: TICKER, amount: 4 },
    ];
    s.add_instruction(ALICE, venue, SettlementType::SettleManual(1), None, None, legs, None).unwrap();
    s.next_block();
    assert_eq!(s.execute_manual_instruction(ALICE, 1, None, 0, 1, 1), Err(SettlementError::NumberOfTransferredNFTsUnderestimated));
    assert_eq!(s.execute_manual_instruction(ALICE, 1, None, 0, 2, 0), Err(SettlementError::NumberOfOffChainTransfersUnderestimated));
    assert_eq!(s.execute_manual_instruction(ALICE, 1, None, 0, 2, 1), Err(SettlementError::NotAllAffirmationsHaveBeenReceived));
    assert_eq!(s.instruction_status(1), InstructionStatus::Pending);
    assert_eq!(s.execute_manual_instruction(ALICE, 9, None, 0, 2, 1), Err(SettlementError::UnknownInstruction));
}

#[test]
fn add_instruction_with_offchain_assets() {
    let mut s = Settlement::new();
    let venue = create_token_and_venue(&mut s, TICKER, ALICE);
    s.pre_approve_ticker(ALICE, TICKER2);
    s.pre_approve_ticker(BOB, TICKER2);
    let memo = Some(vec![0u8; 32]);
    let legs = vec![
        fungible(dp(ALICE), dp(BOB), TICKER, 1_000_000),
        Leg::OffChain { sender_identity: ALICE, receiver_identity: BOB, asset: TICKER2, amount: 1_000_000 },
        Leg::OffChain { sender_identity: ALICE, receiver_identity: BOB, asset: TICKER2, amount: 1_000_000 },
    ];
    s.add_instruction(ALICE, venue, SettlementType::SettleOnAffirmation, None, None, legs.clone(), memo.clone()).unwrap();
    assert_eq!(s.affirmation_status(0, dp(ALICE)), AffirmationStatus::Pending);
    assert_eq!(s.affirmation_status(0, dp(BOB)), AffirmationStatus::Pending);
    assert_eq!(s.offchain_affirmation(0, 1), AffirmationStatus::Pending);
    assert_eq!(s.offchain_affirmation(0, 2), AffirmationStatus::Pending);
    assert_eq!(s.instruction_affirms_pending(0), 4);
    assert_eq!(s.instructions[0].memo, memo);
    assert_eq!(s.instructions[0].legs, legs);
}

#[test]
fn failed_manual_execution_is_recorded() {
    let mut s = Settlement::new();
    let venue = create_token_and_venue(&mut s, TICKER, ALICE);
    s.add_instruction(ALICE, venue, SettlementType::SettleManual(1), None, None, vec![fungible(dp(ALICE), dp(BOB), TICKER, 7)], None)
        .unwrap();
    s.affirm_instruction(ALICE, 0, vec![dp(ALICE)]).unwrap();
    s.affirm_instruction(BOB, 0, vec![dp(BOB)]).unwrap();
    s.set_frozen(ALICE, TICKER, true).unwrap();
    s.next_block();
    assert_eq!(s.execute_manual_instruction(ALICE, 0, None, 1, 0, 0), Err(SettlementError::FailedToReleaseLockOrTransferAssets));
    assert_eq!(s.instruction_status(0), InstructionStatus::Failed);
    assert_eq!(s.locked_balance(dp(ALICE), TICKER), 7);
    assert_eq!(s.balance(dp(BOB), TICKER), 0);
    s.set_frozen(ALICE, TICKER, false).unwrap();
    s.execute_manual_instruction(ALICE, 0, None, 1, 0, 0).unwrap();
    assert_eq!(s.balance(dp(BOB), TICKER), 7);
}

#[test]
fn nothing_due_changes_nothing() {
    let mut s = Settlement::new();
    let venue = create_token_and_venue(&mut s, TICKER, ALICE);
    s.add_instruction(ALICE, venue, SettlementType::SettleOnBlock(4), None, None, vec![fungible(dp(ALICE), dp(BOB), TICKER, 3)], None)
        .unwrap();
    s.affirm_instruction(ALICE, 0, vec![dp(ALICE)]).unwrap();
    s.affirm_instruction(BOB, 0, vec![dp(BOB)]).unwrap();
    for _ in 0..3 {
        assert!(s.next_block().is_empty());
        assert_eq!(s.balance(dp(ALICE), TICKER), 100_000);
        assert_eq!(s.balance(dp(BOB), TICKER), 0);
        assert_eq!(s.instruction_status(0), InstructionStatus::Pending);
    }
    assert_eq!(s.next_block(), vec![0]);
    assert_eq!(s.balance(dp(BOB), TICKER), 3);
}
