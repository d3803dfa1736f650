//! The core of an EVM address extractor: everything it decides and computes, with contracts.
//!
//! A run asks the endpoints of a chain ([`chains`]) for the latest block ([`height`]), divides
//! the blocks it is asked for ([`settings`]) into parts, segments and batches ([`plan`]), fetches
//! the batches with retries and failover ([`rpc`], [`fetch`]), takes the addresses out of the
//! blocks ([`block`], [`gather`]), collects them ([`progress`], [`address_set`]), and lists them
//! in one file for each part ([`listing`], [`part_file`]), which may be uploaded ([`upload`]).
//! [`replies`] and [`extraction`] state what a fetch and a part come to.
//!
//! Nothing here sends a request, waits, or writes a file: the functions take what came back and
//! say what is to be done next.

pub mod address;
pub mod address_set;
pub mod block;
pub mod chains;
pub mod error;
pub mod extraction;
pub mod fetch;
pub mod gather;
pub mod height;
pub mod listing;
pub mod part_file;
pub mod plan;
pub mod progress;
pub mod quantity;
pub mod replies;
pub mod rpc;
pub mod settings;
pub mod text;
pub mod upload;
