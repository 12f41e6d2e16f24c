use anvil::caching::{fork_config, CachedChains, CachedEndpoints, ChainEntry, StorageCachingConfig};
use anvil::utils::{
    get_contract_name, get_file_name, parse_u256, remove_extra_costs, strip_0x_prefix, ParseU256Error,
};
use anvil::types::U256;

#[test]
fn strips_0x_only_when_present() {
    assert_eq!(strip_0x_prefix("0xabcd"), Ok("abcd".to_string()));
    assert_eq!(strip_0x_prefix("abcd"), Ok("abcd".to_string()));
    assert_eq!(strip_0x_prefix("0X12"), Ok("0X12".to_string()));
}

#[test]
fn contract_and_file_names() {
    assert_eq!(get_contract_name("SafeTransferLibTest.json:SafeTransferLibTest"), "SafeTransferLibTest");
    assert_eq!(get_file_name("SafeTransferLibTest.json:SafeTransferLibTest"), "SafeTransferLibTest.json");
    assert_eq!(get_contract_name("a:b:c"), "c");
    assert_eq!(get_file_name("a:b:c"), "a");
    assert_eq!(get_contract_name("plain"), "plain");
}

#[test]
fn extra_costs_are_removed() {
    let gas = U256::from_u64(30000);
    assert_eq!(remove_extra_costs(gas, &[0, 1, 0, 2]), U256::from_u64(30000 - 21000 - 48));
    assert_eq!(remove_extra_costs(U256::from_u64(21000), &[]), U256::zero());
}

#[test]
fn cached_endpoints_parse() {
    assert!(matches!(CachedEndpoints::parse("all"), Ok(CachedEndpoints::All)));
    assert!(matches!(CachedEndpoints::parse("remote"), Ok(CachedEndpoints::Remote)));
    let p = CachedEndpoints::parse("alchemy.*").unwrap();
    assert_eq!(p.to_text(), "alchemy.*");
    assert!(p == CachedEndpoints::parse("alchemy.*").unwrap());
    assert!(p != CachedEndpoints::All);
    assert!(CachedEndpoints::parse("(unclosed").is_err());
}

#[test]
fn caching_defaults() {
    let c = StorageCachingConfig::default();
    assert!(matches!(c.chains, CachedChains::All));
    assert!(matches!(c.endpoints, CachedEndpoints::Remote));
}

#[test]
fn parse_u256_hex_or_decimal() {
    assert_eq!(parse_u256("0x10"), Ok(U256::from_u64(16)));
    assert_eq!(parse_u256("16"), Ok(U256::from_u64(16)));
    assert_eq!(parse_u256(""), Ok(U256::zero()));
    assert_eq!(parse_u256("0x"), Ok(U256::zero()));
    assert_eq!(parse_u256("1a"), Err(ParseU256Error::InvalidDecimal));
    assert_eq!(parse_u256("0X10"), Err(ParseU256Error::InvalidDecimal));
    let max = "115792089237316195423570985008687907853269984665640564039457584007913129639935";
    assert_eq!(parse_u256(max), Ok(U256 { high: u128::MAX, low: u128::MAX }));
    let over = "115792089237316195423570985008687907853269984665640564039457584007913129639936";
    assert_eq!(parse_u256(over), Err(ParseU256Error::InvalidDecimal));
    assert_eq!(parse_u256(&format!("0x1{}", "0".repeat(64))), Err(ParseU256Error::InvalidHex));
    assert_eq!(parse_u256(&format!("0x1{}", "0".repeat(32))), Ok(U256 { high: 1, low: 0 }));
}

#[test]
fn fork_config_follows_caching_rules() {
    let config = StorageCachingConfig::default();
    assert!(fork_config(None, Some(5), false, &config, Some(1)).is_none());
    let f = fork_config(Some("https://rpc.example:8545".to_string()), Some(5), false, &config, Some(1)).unwrap();
    assert_eq!(f.url, "https://rpc.example:8545");
    assert_eq!(f.pin_block, Some(5));
    assert_eq!(f.cache, Some((1, 5)));
    let local = fork_config(Some("http://localhost:8545".to_string()), Some(5), false, &config, Some(1)).unwrap();
    assert_eq!(local.cache, None);
    let unpinned = fork_config(Some("https://x".to_string()), None, false, &config, Some(1)).unwrap();
    assert_eq!(unpinned.cache, None);
    let off = fork_config(Some("https://x".to_string()), Some(5), true, &config, Some(1)).unwrap();
    assert_eq!(off.cache, None);
    let no_chain = fork_config(Some("https://x".to_string()), Some(5), false, &config, None).unwrap();
    assert_eq!(no_chain.cache, None);
}

#[test]
fn chain_and_pattern_matching() {
    let only = StorageCachingConfig {
        chains: CachedChains::Chains(vec![ChainEntry::Named { name: "mainnet".into(), id: 1 }, ChainEntry::Id(10)]),
        endpoints: CachedEndpoints::parse("alchemy").unwrap(),
    };
    assert!(only.enable_for_chain_id(1));
    assert!(only.enable_for_chain_id(10));
    assert!(!only.enable_for_chain_id(5));
    assert!(only.enable_for_endpoint("https://eth-mainnet.alchemyapi.io/v2/key"));
    assert!(!only.enable_for_endpoint("https://infura.io"));
    let config = StorageCachingConfig::default();
    assert!(!config.enable_for_endpoint("http://127.0.0.1:8545"));
    assert!(config.enable_for_endpoint("https://infura.io"));
}
