//! A minimal fixed-supply fungible-token ledger.
//!
//! The ledger maps account identities to unsigned balances. A fixed supply
//! is minted once, to the initializing account, and thereafter value only
//! moves between accounts through `transfer`, under a proved conservation
//! invariant: the stored balances always sum to the fixed total supply.

pub mod balance_sum;
pub mod entries;
pub mod laws;
pub mod ledger;

pub use balance_sum::balance_in;
pub use balance_sum::sum_of_balances;
pub use entries::entries_map;
pub use entries::entries_sum;
pub use entries::keys_distinct;
pub use ledger::FungibleToken;
pub use ledger::TransferError;
