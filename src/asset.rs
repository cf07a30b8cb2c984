//! Asset identifiers: a native denomination or a token contract address.
use vstd::prelude::*;

verus! {

/// An on-chain account or contract address, kept as the text that names it.
#[derive(Debug)]
pub struct Addr(pub String);

impl Addr {
    /// Wraps a string as an address without validating it.
    pub fn unchecked(s: &str) -> (r: Addr)
        ensures
            r@ == s@,
    {
        Addr(s.to_string())
    }

    pub fn as_str(&self) -> (r: &str)
        ensures
            r@ == self@,
    {
        self.0.as_str()
    }
}

impl View for Addr {
    type V = Seq<char>;

    open spec fn view(&self) -> Seq<char> {
        self.0@
    }
}

impl Clone for Addr {
    fn clone(&self) -> (r: Self)
        ensures
            r == *self,
    {
        Addr(self.0.clone())
    }
}

/// A tradeable asset: either a custom token (by contract address) or a
/// native-currency denomination.
#[derive(Debug)]
pub enum AssetInfo {
    Token { contract_addr: Addr },
    NativeToken { denom: String },
}

impl AssetInfo {
    /// The identifier text whose bytes name the asset.
    pub open spec fn id(&self) -> Seq<char> {
        match self {
            AssetInfo::Token { contract_addr } => contract_addr@,
            AssetInfo::NativeToken { denom } => denom@,
        }
    }

    /// The identifier of the asset: the contract address or the denomination.
    pub fn as_str(&self) -> (r: &str)
        ensures
            r@ == self.id(),
    {
        match self {
            AssetInfo::Token { contract_addr } => contract_addr.as_str(),
            AssetInfo::NativeToken { denom } => denom.as_str(),
        }
    }

    /// The native asset with the empty denomination.
    pub fn empty() -> (r: AssetInfo)
        ensures
            r is NativeToken,
            r.id() == Seq::<char>::empty(),
    {
        AssetInfo::NativeToken { denom: String::new() }
    }

    /// The identifier is empty.
    pub fn is_empty(&self) -> (r: bool)
        ensures
            r == (self.id().len() == 0),
    {
        self.as_str().unicode_len() == 0
    }

    /// The same kind of asset with the same identifier.
    pub fn equal(&self, asset: &AssetInfo) -> (r: bool)
        ensures
            r == ((self is NativeToken) == (asset is NativeToken) && self.id() == asset.id()),
    {
        match (self, asset) {
            (AssetInfo::Token { contract_addr: a }, AssetInfo::Token { contract_addr: b }) => {
                crate::entities::str_eq(a.as_str(), b.as_str())
            },
            (AssetInfo::NativeToken { denom: a }, AssetInfo::NativeToken { denom: b }) => {
                crate::entities::str_eq(a.as_str(), b.as_str())
            },
            _ => false,
        }
    }

    pub fn is_native_token(&self) -> (r: bool)
        ensures
            r == (self is NativeToken),
    {
        match self {
            AssetInfo::Token { .. } => false,
            AssetInfo::NativeToken { .. } => true,
        }
    }
}

impl Clone for AssetInfo {
    fn clone(&self) -> (r: Self)
        ensures
            r == *self,
    {
        match self {
            AssetInfo::Token { contract_addr } => AssetInfo::Token { contract_addr: contract_addr.clone() },
            AssetInfo::NativeToken { denom } => AssetInfo::NativeToken { denom: denom.clone() },
        }
    }
}

} // verus!
