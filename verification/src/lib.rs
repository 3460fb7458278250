//! Verified core of the git-hierarchy tools: segments and sums of git
//! branches, the naming rules of their references, the ordering of a
//! hierarchy, and the decisions taken while rebasing it.

pub mod cli;
pub mod collected;
pub mod strs;
pub mod utils;
pub mod execute;
pub mod git_hierarchy;
pub mod graph;
pub mod permutation;
pub mod poset;
pub mod rebase;
