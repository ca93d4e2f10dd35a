//! A permissioned, append-only double-entry ledger over remote tabular
//! storage.
//!
//! The durable state lives in a remote sheet reached through one narrow
//! storage port ([`port::CloudSpreadsheetService`]); everything above that
//! seam is verified. The domain model ([`account`], [`record`], [`ledger`],
//! [`balance`], [`prices`]) keeps records immutable, corrections flowing
//! only through adjustments, and balances folding over every posting with
//! currency conversion. The wire format ([`rows`], [`jsontext`],
//! [`numtext`], [`textutil`]) writes records as rows of text cells and is
//! proved to read its own output back unchanged. The integrity scheme
//! ([`hashing`], [`verification`]) salts a digest of every row with a
//! per-ledger signature so out-of-band edits of the remote data are
//! detected. Two decorators wrap any port: retry with exponential backoff
//! ([`retry`]) and write batching with read caching ([`buffered`]). The
//! [`sharing`] module composes it all into a concurrency-safe, permissioned
//! facade whose local state is a cache rebuilt by replaying the remote log.
//!
//! The few places that must trust the outside world — cryptography, the
//! clock, fresh identifiers, the calendar and the currency table — are
//! collected in [`outside`] behind contracts that say no more than those
//! crates' own documentation does.

pub mod account;
pub mod balance;
pub mod buffered;
pub mod dedup;
pub mod hashing;
pub mod jsontext;
pub mod ledger;
pub mod numtext;
pub mod outside;
pub mod port;
pub mod prices;
pub mod query;
pub mod record;
pub mod retry;
pub mod rows;
pub mod sharing;
pub mod textutil;
pub mod verification;
