//! # YANG Push message key derivation
//!
//! Derives unique message broker keys from YANG Push on-change
//! notifications (RFC 8641).  The algorithm operates in three phases:
//!
//! | Phase | Module     | Input                                  | Output                     |
//! |-------|------------|----------------------------------------|----------------------------|
//! | 1     | [`phase1`] | Subtree filter XML + module namespaces | XPath expression(s)        |
//! | 2     | [`phase2`] | XPath + resolved schema nodes          | Key template + extractions |
//! | 3     | [`phase3`] | Data tree + Phase 2 result             | Message key                |
//!
//! [`topic`] derives topic names from Phase 2 templates, [`xpath`]
//! holds the XPath utilities the phases share, and [`cli`] what the
//! command-line front end needs besides I/O.
use vstd::prelude::*;

pub mod cli;
pub mod phase1;
pub mod phase2;
pub mod phase3;
pub mod text;
pub mod topic;
pub mod types;
pub mod xpath;

pub use phase1::normalize_subtree;
pub use phase2::{derive_templates, derive_templates_with};
pub use phase3::{produce_message_key, produce_message_key_from};
pub use types::{
    BranchTemplate, DerivationResult, ExtractionSpec, MessageKey, MessageKeyResult, TargetType,
};

verus! {

} // verus!
