use vstd::prelude::*;

verus! {

/// Most fungible legs one instruction may hold.
pub const MAX_FUNGIBLE_LEGS: usize = 10;

/// Most token ids one non-fungible leg may move.
pub const MAX_NFTS_PER_LEG: usize = 10;

/// Most token ids one instruction may move over all its legs.
pub const MAX_NFTS_PER_INSTRUCTION: usize = 100;

/// Most off-chain legs one instruction may hold.
pub const MAX_OFFCHAIN_LEGS: usize = 10;

/// Most signers a venue may have.
pub const MAX_VENUE_SIGNERS: usize = 50;

/// A portfolio: the identity that owns it and its number among that
/// identity's portfolios (0 is the default portfolio).
#[derive(Clone, Copy, Debug, PartialEq, Eq, Structural)]
pub struct PortfolioId {
    pub did: u64,
    pub number: u64,
}

impl PortfolioId {
    /// The default portfolio of `did`.
    pub fn default_portfolio(did: u64) -> (r: PortfolioId)
        ensures
            r.did == did,
            r.number == 0,
    {
        PortfolioId { did, number: 0 }
    }

    /// The user portfolio `number` of `did`.
    pub fn user_portfolio(did: u64, number: u64) -> (r: PortfolioId)
        ensures
            r.did == did,
            r.number == number,
    {
        PortfolioId { did, number }
    }
}


/// One asset movement of an instruction.
#[derive(Clone, Debug, PartialEq, Eq)]
pub enum Leg {
    /// Moves `amount` units of `asset` between two portfolios.
    Fungible { sender: PortfolioId, receiver: PortfolioId, asset: u64, amount: u128 },
    /// Moves the tokens `ids` of the collection `asset` between two portfolios.
    NonFungible { sender: PortfolioId, receiver: PortfolioId, asset: u64, ids: Vec<u64> },
    /// A movement settled outside the ledger, attested by a signed receipt.
    OffChain { sender_identity: u64, receiver_identity: u64, asset: u64, amount: u128 },
}

impl Leg {
    pub open spec fn is_onchain(self) -> bool {
        !(self is OffChain)
    }

    /// The sending portfolio of an on-chain leg.
    pub open spec fn sender_of(self) -> PortfolioId {
        match self {
            Leg::Fungible { sender, .. } => sender,
            Leg::NonFungible { sender, .. } => sender,
            Leg::OffChain { sender_identity, .. } => PortfolioId { did: sender_identity, number: 0 },
        }
    }

    /// The receiving portfolio of an on-chain leg.
    pub open spec fn receiver_of(self) -> PortfolioId {
        match self {
            Leg::Fungible { receiver, .. } => receiver,
            Leg::NonFungible { receiver, .. } => receiver,
            Leg::OffChain { receiver_identity, .. } => PortfolioId { did: receiver_identity, number: 0 },
        }
    }

    pub open spec fn asset_of(self) -> u64 {
        match self {
            Leg::Fungible { asset, .. } => asset,
            Leg::NonFungible { asset, .. } => asset,
            Leg::OffChain { asset, .. } => asset,
        }
    }

    pub fn asset(&self) -> (r: u64)
        ensures
            r == self.asset_of(),
    {
        match self {
            Leg::Fungible { asset, .. } => *asset,
            Leg::NonFungible { asset, .. } => *asset,
            Leg::OffChain { asset, .. } => *asset,
        }
    }

    pub fn is_offchain(&self) -> (r: bool)
        ensures
            r == !self.is_onchain(),
    {
        match self {
            Leg::OffChain { .. } => true,
            _ => false,
        }
    }

    pub fn sender(&self) -> (r: PortfolioId)
        ensures
            r == self.sender_of(),
    {
        match self {
            Leg::Fungible { sender, .. } => *sender,
            Leg::NonFungible { sender, .. } => *sender,
            Leg::OffChain { sender_identity, .. } => PortfolioId { did: *sender_identity, number: 0 },
        }
    }

    pub fn receiver(&self) -> (r: PortfolioId)
        ensures
            r == self.receiver_of(),
    {
        match self {
            Leg::Fungible { receiver, .. } => *receiver,
            Leg::NonFungible { receiver, .. } => *receiver,
            Leg::OffChain { receiver_identity, .. } => PortfolioId { did: *receiver_identity, number: 0 },
        }
    }
}

/// Consent of one party (a portfolio, or the receipt of an off-chain leg).
#[derive(Clone, Copy, Debug, PartialEq, Eq, Structural)]
pub enum AffirmationStatus {
    Unknown,
    Pending,
    Affirmed,
}

/// Progress of one leg towards execution.
#[derive(Clone, Copy, Debug, PartialEq, Eq, Structural)]
pub enum LegStatus {
    /// The sender has not yet reserved what the leg moves.
    PendingTokenLock,
    /// The sender's assets are reserved; the leg waits for execution.
    ExecutionPending,
    /// Settled outside the ledger, as `signer` attested with receipt `uid`.
    ExecutionToBeSkipped { signer: u64, uid: u64 },
}

/// When an instruction is executed.
#[derive(Clone, Copy, Debug, PartialEq, Eq, Structural)]
pub enum SettlementType {
    /// In the block after the last affirmation.
    SettleOnAffirmation,
    /// At the given block.
    SettleOnBlock(u64),
    /// On an explicit call at or after the given block.
    SettleManual(u64),
}

/// Lifecycle of an instruction.
#[derive(Clone, Copy, Debug, PartialEq, Eq, Structural)]
pub enum InstructionStatus {
    Unknown,
    Pending,
    Failed,
    Success(u64),
    Rejected(u64),
}

/// Kinds of venue.
#[derive(Clone, Copy, Debug, PartialEq, Eq, Structural)]
pub enum VenueType {
    Other,
    Distribution,
    Sto,
    Exchange,
}

/// A receipt presented for an off-chain leg: what it attests (its uid,
/// the instruction and leg, the two identities, the asset and the amount)
/// and who signed it. `signature_valid` is the outcome of checking the
/// detached signature of `signer` over those attested fields.
#[derive(Clone, Copy, Debug, PartialEq, Eq, Structural)]
pub struct ReceiptDetails {
    pub uid: u64,
    pub instruction_id: u64,
    pub leg_id: u64,
    pub sender_identity: u64,
    pub receiver_identity: u64,
    pub asset: u64,
    pub amount: u128,
    pub signer: u64,
    pub signature_valid: bool,
}

impl ReceiptDetails {
    /// The off-chain leg this receipt attests.
    pub open spec fn attested_leg(self) -> Leg {
        Leg::OffChain {
            sender_identity: self.sender_identity,
            receiver_identity: self.receiver_identity,
            asset: self.asset,
            amount: self.amount,
        }
    }
}

/// Why a call was refused.
#[derive(Clone, Copy, Debug, PartialEq, Eq, Structural)]
pub enum SettlementError {
    InvalidVenue,
    Unauthorized,
    UnauthorizedVenue,
    UnauthorizedCustodian,
    UnauthorizedSigner,
    UnknownAsset,
    AssetAlreadyExists,
    UnknownInstruction,
    InstructionNotPending,
    InstructionNotFailed,
    NoLegs,
    ZeroAmount,
    SameSenderReceiver,
    DuplicatedNFTId,
    EmptyNFTLeg,
    MaxNumberOfFungibleAssetsExceeded,
    MaxNumberOfNFTsPerLegExceeded,
    MaxNumberOfNFTsExceeded,
    MaxNumberOfOffChainAssetsExceeded,
    UnexpectedOFFChainAsset,
    SettleOnPastBlock,
    UnexpectedAffirmationStatus,
    InsufficientPortfolioBalance,
    NFTNotFoundInPortfolio,
    NFTAlreadyLocked,
    BalanceOverflow,
    CallerIsNotAParty,
    DuplicateReceiptUid,
    ReceiptInstructionIdMismatch,
    ReceiptForInvalidLegType,
    ReceiptDoesNotMatchLeg,
    ReceiptAlreadyClaimed,
    InvalidSignature,
    InstructionSettleBlockNotReached,
    NotAllAffirmationsHaveBeenReceived,
    NumberOfFungibleTransfersUnderestimated,
    NumberOfTransferredNFTsUnderestimated,
    NumberOfOffChainTransfersUnderestimated,
    FailedToReleaseLockOrTransferAssets,
    SignerAlreadyExists,
    SignerDoesNotExist,
    NumberOfVenueSignersExceeded,
}

} // verus!
