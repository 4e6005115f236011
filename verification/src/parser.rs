//! The command-line surface as plain data: the selected subcommand with its
//! arguments. The binary's argument parser fills these in and hands them to
//! the library.

use crate::RankMethod;
use vstd::prelude::*;

verus! {

/// One invocation of the tool.
pub struct Cli {
    pub command: Commands,
}

/// The subcommands the tool answers.
pub enum Commands {
    /// Search for a prompt string across previously indexed documents.
    Search { index_file_path: String, prompt: String, rank_method: RankMethod },
    /// Display how many documents a saved index file holds.
    Check { index_file_path: String },
    /// Index a directory recursively and serve queries over it.
    Serve { dir_path: String, address: String, rank_method: RankMethod },
}

} // verus!
