use apollo_graph::algo::MinScored;
use apollo_graph::asset::AssetInfo;
use apollo_graph::entities::Node;
use apollo_graph::utils::{parse_u8_key, ContractError};


#[test]
fn parse_u8_key_reports_corrupted_data() {
    assert_eq!(parse_u8_key(&[0, 0, 0, 0, 0, 0, 0, 7]), Err(ContractError::CorruptedData));
    assert_eq!(parse_u8_key(&[1, 2, 3, 4, 5, 6, 7, 8, 9]), Err(ContractError::CorruptedData));
}

#[test]
fn concat_joins_namespace_and_key() {
    assert_eq!(apollo_graph::utils::concat(b"\x00\x04user", b"abc"), b"\x00\x04userabc".to_vec());
    assert_eq!(apollo_graph::utils::concat(b"", b"k"), b"k".to_vec());
    assert_eq!(apollo_graph::utils::concat(b"ns", b""), b"ns".to_vec());
}

fn node(d: &str) -> Node {
    Node {
        asset: AssetInfo::NativeToken { denom: d.to_string() },
    }
}

#[test]
fn min_scored_orders_by_reversed_cost() {
    let cheap = MinScored(1, node("a"));
    let dear = MinScored(5, node("b"));
    assert_eq!(cheap.cmp(&dear), std::cmp::Ordering::Greater);
    assert_eq!(dear.cmp(&cheap), std::cmp::Ordering::Less);
    assert_eq!(cheap.cmp(&MinScored(1, node("c"))), std::cmp::Ordering::Equal);
}

#[test]
fn asset_info_identity() {
    let native = AssetInfo::NativeToken { denom: "uluna".to_string() };
    let token = AssetInfo::Token { contract_addr: apollo_graph::asset::Addr::unchecked("uluna") };
    assert!(native.equal(&AssetInfo::NativeToken { denom: "uluna".to_string() }));
    assert!(!native.equal(&token));
    assert!(!native.equal(&AssetInfo::NativeToken { denom: "uusd".to_string() }));
    assert!(token.equal(&AssetInfo::Token { contract_addr: apollo_graph::asset::Addr::unchecked("uluna") }));
    assert_eq!(native.as_str(), "uluna");
    assert!(native.is_native_token());
    assert!(!token.is_native_token());
    assert!(AssetInfo::empty().is_empty());
    assert!(AssetInfo::empty().is_native_token());
    assert!(!native.is_empty());
    assert!(AssetInfo::Token { contract_addr: apollo_graph::asset::Addr::unchecked("") }.is_empty());
}
