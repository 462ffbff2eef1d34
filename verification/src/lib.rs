//! A ledger engine for client accounts: deposits, withdrawals, disputes,
//! resolutions and chargebacks, with exact fixed-point amounts, plus reading
//! events from and writing summaries to delimited text.
pub mod balance;
pub mod ledger;
pub mod table;
pub mod text;

pub use balance::Balance;
pub use balance::DecimalError;
pub use ledger::aggregate;
pub use ledger::AccountStates;
pub use ledger::Action;
pub use ledger::AccountSummary;
pub use ledger::ClientId;
pub use ledger::Transaction;
pub use ledger::TransactionId;
pub use ledger::TransactionKind;
pub use table::summaries_from_csv;
pub use table::write_summary_csv;
pub use table::ParseError;
