//! Command-line options shared by the tools.

use vstd::prelude::*;

verus! {

/// The git repository a tool works on: the directory given with `-g`, or,
/// when none is given, the one found from the environment.
pub struct ClapGitRepo {
    pub directory: Option<String>,
}

} // verus!
