//! Reconciliation of DNS zone-file lines against DHCP lease updates.
//!
//! The library parses the two line shapes a zone file may hold (a serial
//! marker line and a four-token resource-record line), merges a batch of
//! pending name-to-value updates into an existing line sequence, reports
//! whether anything changed, and cleans lease hostnames. Reading and
//! publishing the files themselves is left to the caller.

pub mod digits;
pub mod hostname;
pub mod laws;
pub mod leases;
pub mod reconcile;
pub mod records;
pub mod serial;
pub mod text;
pub mod update_map;
