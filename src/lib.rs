//! Unspent-output ledger maintenance and snapshot export.
//!
//! The library derives composite ledger keys from transaction data, encodes
//! ledger entry values, plans the store mutations that one block causes, and
//! renders the CSV snapshot of the ledger's content. An in-memory store
//! applies the planned mutations; the remote backing stores (a key-value
//! hash map or a relational table) are driven by the application around it.

use vstd::prelude::*;

pub mod key;
pub mod codec;
pub mod ledger;
pub mod export;
pub mod store;
pub mod consistency;
