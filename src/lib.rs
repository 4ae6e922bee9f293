pub mod types;
pub mod ledger;
pub mod registry;
pub mod settlement;
pub mod creation;
pub mod affirmation;
pub mod lifecycle;
pub mod execution;
pub mod weights;
pub mod laws;
pub mod reservation;

pub use ledger::Ledger;
pub use settlement::{Instruction, Party, ScheduledCall, Settlement};
pub use types::{
    AffirmationStatus, InstructionStatus, Leg, LegStatus, PortfolioId, ReceiptDetails,
    SettlementError, SettlementType, VenueType,
};
pub use weights::{SubstrateWeight, Weight};
