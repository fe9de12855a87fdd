//! A dual-ledger state engine for verified carbon-reduction credits.
//!
//! The crate pairs a non-fungible certificate registry (one immutable record
//! per verified reduction, with a mutable current holder) with a fungible
//! balance ledger (one divisible credit token).  The registry keeps secondary
//! indices so certificates stay discoverable by the issuing verifier and the
//! beneficiary farmer, offers paginated, sortable and filterable read-only
//! queries over those indices, and maintains aggregate counters that always
//! equal a fold over the live records.
//!
//! The durable key-value substrate, principal authentication, event delivery
//! and the wire format of the cross-contract call are host concerns: state is
//! held in explicit values, proof of control arrives as an [`auth::AuthContext`]
//! capability, emitted events accumulate in an in-state log, and the
//! best-effort mint on the linked fungible ledger is returned to the host as a
//! requested action rather than performed in place.

pub mod auth;
pub mod index_list;
pub mod query;
pub mod registry;
pub mod token;
