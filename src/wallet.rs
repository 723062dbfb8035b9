//! The commands of the wallet shell.
use vstd::prelude::*;

verus! {

/// A command of the wallet shell; paths are held as strings.
#[derive(Debug)]
pub enum WalletCommand {
    Create(String),
    Import(String),
    Export(String),
    Show,
    Open(String),
    Help,
    Exit,
}

} // verus!
