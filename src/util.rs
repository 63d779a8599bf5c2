use vstd::prelude::*;
use crate::types::ChainType;
use crate::diff::{diff, group, runs_view, script, Run};

verus! {

// ---------------------------------------------------------------------------
// Chains

/// The chain that a lower-case chain name stands for.
pub open spec fn chain_named(lower: Seq<char>) -> Option<ChainType> {
    if lower == "bsc"@ {
        Some(ChainType::BSC)
    } else if lower == "ethereum"@ {
        Some(ChainType::Ethereum)
    } else if lower == "polygon"@ {
        Some(ChainType::Polygon)
    } else {
        None
    }
}

/// What `str::to_lowercase` returns for a string.
pub uninterp spec fn lower_of(s: Seq<char>) -> Seq<char>;

/// Relies on `str::to_lowercase`: the result depends on the characters alone.
#[verifier::external_body]
fn lowercase(s: &str) -> (r: String)
    ensures
        r@ == lower_of(s@),
{
    s.to_lowercase()
}

/// The chain named by an already lower-cased name, if any.
pub fn chain_from_lowercase(lower: &str) -> (r: Option<ChainType>)
    ensures
        r == chain_named(lower@),
{
    let name: String = lower.to_owned();
    let bsc: String = "bsc".to_owned();
    let ethereum: String = "ethereum".to_owned();
    let polygon: String = "polygon".to_owned();
    if name == bsc {
        Some(ChainType::BSC)
    } else if name == ethereum {
        Some(ChainType::Ethereum)
    } else if name == polygon {
        Some(ChainType::Polygon)
    } else {
        None
    }
}

/// The chain named by `name`, ignoring case.
pub fn parse_chain(name: &str) -> (r: Option<ChainType>)
    ensures
        r == chain_named(lower_of(name@)),
{
    let lower = lowercase(name);
    chain_from_lowercase(lower.as_str())
}

/// The RPC endpoint of each chain.
pub open spec fn endpoint_of(chain: ChainType) -> Seq<char> {
    match chain {
        ChainType::BSC => "https://bsc-dataseed.binance.org/"@,
        ChainType::Ethereum => "https://rpc.ankr.com/eth"@,
        ChainType::Polygon => "https://polygon-rpc.com/"@,
    }
}

/// The RPC endpoint to reach `chain` through.
pub fn rpc_endpoint(chain: ChainType) -> (r: &'static str)
    ensures
        r@ == endpoint_of(chain),
{
    match chain {
        ChainType::BSC => "https://bsc-dataseed.binance.org/",
        ChainType::Ethereum => "https://rpc.ankr.com/eth",
        ChainType::Polygon => "https://polygon-rpc.com/",
    }
}

// ---------------------------------------------------------------------------
// Addresses

/// A lower-case hexadecimal digit.
pub open spec fn is_hex_digit(c: char) -> bool {
    ('0' <= c && c <= '9') || ('a' <= c && c <= 'f')
}

/// Forty lower-case hexadecimal digits, optionally preceded by `0x`.
pub open spec fn is_plain_address(s: Seq<char>) -> bool {
    let digits = if s.len() >= 2 && s[0] == '0' && s[1] == 'x' {
        s.skip(2)
    } else {
        s
    };
    digits.len() == 40 && forall|i: int| 0 <= i < 40 ==> is_hex_digit(#[trigger] digits[i])
}

/// Relies on `regex::Regex::new`, which accepts this pattern, and on
/// `regex::Regex::is_match`: anchored at both ends, the pattern matches
/// exactly forty characters of `0-9a-f`, optionally after `0x`.
#[verifier::external_body]
fn matches_address_pattern(pattern: &str, text: &str) -> (r: bool)
    requires
        pattern@ == "^(0x)?[0-9a-f]{40}$"@,
    ensures
        r == is_plain_address(text@),
{
    regex::Regex::new(pattern).unwrap().is_match(text)
}

/// Whether an already lower-cased string has the shape of an address.
pub fn is_lowercase_address(lower: &str) -> (r: bool)
    ensures
        r == is_plain_address(lower@),
{
    matches_address_pattern("^(0x)?[0-9a-f]{40}$", lower)
}

/// Whether `address` has the shape of an address, ignoring case: forty
/// hexadecimal digits, optionally after `0x`. The checksum of mixed-case
/// addresses is not checked.
pub fn is_address_simplified(address: &str) -> (r: bool)
    ensures
        r == is_plain_address(lower_of(address@)),
{
    let lower = lowercase(address);
    is_lowercase_address(lower.as_str())
}

// ---------------------------------------------------------------------------
// Contract code

/// The lower-case hexadecimal digit of a value below sixteen.
pub open spec fn hex_digit(v: int) -> char {
    seq!['0', '1', '2', '3', '4', '5', '6', '7', '8', '9', 'a', 'b', 'c', 'd', 'e', 'f'][v]
}

/// Each byte as two lower-case hexadecimal digits, high half first.
pub open spec fn hex_of(b: Seq<u8>) -> Seq<char>
    decreases b.len(),
{
    if b.len() == 0 {
        seq![]
    } else {
        hex_of(b.drop_last()) + seq![hex_digit(b.last() as int / 16), hex_digit(b.last() as int % 16)]
    }
}

proof fn lemma_hex_of_len(b: Seq<u8>)
    ensures
        hex_of(b).len() == 2 * b.len(),
    decreases b.len(),
{
    if b.len() > 0 {
        lemma_hex_of_len(b.drop_last());
    }
}

/// Relies on `hex::encode`: each byte becomes two lower-case hexadecimal
/// digits, high half first.
#[verifier::external_body]
fn encode_hex(bytes: &Vec<u8>) -> (r: Vec<char>)
    ensures
        r@ == hex_of(bytes@),
{
    hex::encode(bytes.as_slice()).chars().collect()
}

/// Why two pieces of code could not be compared.
#[derive(Clone, Copy, Debug, PartialEq, Eq, Structural)]
pub enum CodeError {
    /// The first address holds no code: it is not a contract.
    FirstNotContract,
    /// The second address holds no code: it is not a contract.
    SecondNotContract,
}

/// Compares the code of two contracts as hexadecimal text, unit by unit.
/// An address without code is not a contract, and is reported as such.
pub fn diff_contract_code(code1: &Vec<u8>, code2: &Vec<u8>) -> (r: Result<Vec<Run>, CodeError>)
    requires
        2 * (code1@.len() + code2@.len()) < usize::MAX / 4,
    ensures
        code1@.len() == 0 ==> r == Err::<Vec<Run>, CodeError>(CodeError::FirstNotContract),
        code1@.len() > 0 && code2@.len() == 0 ==> r == Err::<Vec<Run>, CodeError>(
            CodeError::SecondNotContract,
        ),
        code1@.len() > 0 && code2@.len() > 0 ==> r is Ok && runs_view(r->Ok_0@) == group(
            script(hex_of(code1@), hex_of(code2@)),
        ),
{
    let hex1 = encode_hex(code1);
    let hex2 = encode_hex(code2);
    proof {
        lemma_hex_of_len(code1@);
        lemma_hex_of_len(code2@);
    }
    if hex1.len() == 0 {
        return Err(CodeError::FirstNotContract);
    }
    if hex2.len() == 0 {
        return Err(CodeError::SecondNotContract);
    }
    Ok(diff(&hex1, &hex2))
}

} // verus!
