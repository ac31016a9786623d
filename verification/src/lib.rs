//! Threshold multi-signatory accounts: an account controlled by a fixed set of
//! signatories, any call of which needs the approval of a quorum of them.
//!
//! - `canonical` says what the canonical form of a set of identities is, and
//!   builds it; `signatory_set` keeps such a set within its bound.
//! - `identity` derives the identity of an account from its signatories and
//!   its threshold.
//! - `rules` decides registrations and approvals on plain values, for a host
//!   that keeps the tables itself.
//! - `pallet` is the ledger with tables of its own; `state` is that ledger as
//!   a mathematical value, which the contracts of `pallet` speak of.
//! - `laws` holds what is proved of all ledgers.
//! - `bounded` and `hashing` state, without proof, what is used of
//!   `polkadot_sdk_frame`; so does one function of `identity`.

pub mod assoc;
pub mod bounded;
pub mod canonical;
pub mod error;
pub mod event;
pub mod hashing;
pub mod identity;
pub mod laws;
pub mod pallet;
pub mod rules;
pub mod signatory_set;
pub mod state;

pub use crate::bounded::MAX_SIGNATORIES;
pub use crate::canonical::AccountId;
pub use crate::error::Error;
pub use crate::event::Event;
pub use crate::hashing::CallHash;
pub use crate::pallet::Pallet;
pub use crate::rules::Decision;
pub use crate::signatory_set::SignatorySet;
