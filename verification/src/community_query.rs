//! Community summaries for queries.

use vstd::prelude::*;
use crate::community_label::{package_label, package_label_from_path};

verus! {

/// One named community for listing / filtering.
#[derive(Debug, Clone)]
pub struct CommunityInfo {
    /// Label-propagation community id.
    pub id: usize,
    /// Human-readable label.
    pub label: String,
    /// Member node count.
    pub member_count: usize,
}

/// Package label of a member file path (same reading as the community labels use).
pub fn path_to_package(file_path: &str) -> (r: String)
    ensures
        r@ == package_label(file_path@),
{
    package_label_from_path(file_path)
}

} // verus!
