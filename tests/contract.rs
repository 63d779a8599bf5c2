use contractdiff::diff::{ChangeTag, Run};
use contractdiff::types::ChainType;
use contractdiff::util::{
    chain_from_lowercase, diff_contract_code, is_address_simplified, is_lowercase_address,
    parse_chain, rpc_endpoint, CodeError,
};

fn run(tag: ChangeTag, s: &str) -> Run {
    Run { tag, units: s.chars().collect() }
}

#[test]
fn chain_names_ignore_case() {
    assert_eq!(parse_chain("bsc"), Some(ChainType::BSC));
    assert_eq!(parse_chain("BSC"), Some(ChainType::BSC));
    assert_eq!(parse_chain("Ethereum"), Some(ChainType::Ethereum));
    assert_eq!(parse_chain("POLYGON"), Some(ChainType::Polygon));
    assert_eq!(parse_chain("solana"), None);
    assert_eq!(parse_chain(""), None);
}

#[test]
fn lower_case_chain_names() {
    assert_eq!(chain_from_lowercase("polygon"), Some(ChainType::Polygon));
    assert_eq!(chain_from_lowercase("Polygon"), None);
}

#[test]
fn endpoints_per_chain() {
    assert_eq!(rpc_endpoint(ChainType::BSC), "https://bsc-dataseed.binance.org/");
    assert_eq!(rpc_endpoint(ChainType::Ethereum), "https://rpc.ankr.com/eth");
    assert_eq!(rpc_endpoint(ChainType::Polygon), "https://polygon-rpc.com/");
}

#[test]
fn address_shapes() {
    let digits = "10ed43c718714eb63d5aa57b78b54704e256024e";
    assert!(is_address_simplified(&format!("0x{}", digits)));
    assert!(is_address_simplified(digits));
    assert!(is_address_simplified("0x10ED43C718714EB63D5AA57B78B54704E256024E"));
    assert!(!is_address_simplified("0x10ed43c718714eb63d5aa57b78b54704e256024"));
    assert!(!is_address_simplified("0x10ed43c718714eb63d5aa57b78b54704e256024e0"));
    assert!(!is_address_simplified("0x10ed43c718714eb63d5aa57b78b54704e256024g"));
    assert!(!is_address_simplified(""));
}

#[test]
fn lower_case_address_only() {
    assert!(is_lowercase_address("0x10ed43c718714eb63d5aa57b78b54704e256024e"));
    assert!(!is_lowercase_address("0x10ED43C718714EB63D5AA57B78B54704E256024E"));
}

#[test]
fn code_compared_as_hex() {
    let r = diff_contract_code(&vec![0xab, 0x01], &vec![0xac, 0x01]);
    assert_eq!(
        r,
        Ok(vec![
            run(ChangeTag::Equal, "a"),
            run(ChangeTag::Delete, "b"),
            run(ChangeTag::Insert, "c"),
            run(ChangeTag::Equal, "01"),
        ])
    );
}

#[test]
fn identical_code() {
    let code = vec![0x60, 0x80, 0x60, 0x40];
    assert_eq!(diff_contract_code(&code, &code), Ok(vec![run(ChangeTag::Equal, "60806040")]));
}

#[test]
fn address_without_code_is_not_a_contract() {
    assert_eq!(diff_contract_code(&vec![], &vec![0x60]), Err(CodeError::FirstNotContract));
    assert_eq!(diff_contract_code(&vec![], &vec![]), Err(CodeError::FirstNotContract));
    assert_eq!(diff_contract_code(&vec![0x60], &vec![]), Err(CodeError::SecondNotContract));
}
