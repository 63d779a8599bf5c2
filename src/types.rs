use vstd::prelude::*;

verus! {

/// The command-line arguments: two contract addresses and a chain name.
#[derive(Clone, Debug)]
pub struct CommandlineArgs {
    /// First contract address, the base of the comparison.
    pub address1: String,
    /// Second contract address, compared against the first.
    pub address2: String,
    /// Which chain to work with.
    pub chain: String,
}

/// The chains whose contracts can be compared.
#[derive(Clone, Copy, Debug, PartialEq, Eq, Structural)]
pub enum ChainType {
    /// BSC - Binance Smart Chain
    BSC,
    /// Ethereum
    Ethereum,
    /// Polygon
    Polygon,
}

} // verus!
