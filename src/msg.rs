//! Plain message and response types that contracts around the router
//! exchange.
use vstd::prelude::*;

verus! {

/// The curve of a liquidity pair.
#[derive(Clone, Copy, Debug, PartialEq, Eq)]
pub enum PairType {
    /// Constant product.
    Xyk,
    /// Stable swap.
    Stable,
}

/// Hook message received by a staking adaptor along with tokens.
#[derive(Clone, Debug, PartialEq, Eq)]
pub enum BaseStakingAdaptorCw20HookMsg<A> {
    Deposit,
    Adaptor(A),
}

/// Hook message received by a staking adaptor of the router crate.
#[derive(Clone, Debug, PartialEq, Eq)]
pub enum StakingAdaptorCw20HookMsg<A> {
    Deposit,
    Adaptor(A),
}

/// Adaptor-specific hook of the Astroport staking adaptor.
#[derive(Clone, Copy, Debug, PartialEq, Eq)]
pub enum AstroportStakingCw20HookMsg {
    VoteLock,
}

/// Whether a strategy should run its periodic execution.
#[derive(Clone, Copy, Debug, PartialEq, Eq)]
pub struct ShouldExecuteResponse {
    pub should_execute: bool,
}

/// Hook message received by a strategy along with tokens.
#[derive(Clone, Debug, PartialEq, Eq)]
pub enum StrategyCw20HookMsg {
    Deposit { depositor_addr: String },
}

/// Migration parameters of an auto-compounding strategy.
#[derive(Clone, Debug, PartialEq, Eq)]
pub struct AutoCompoundMigrateMsg {
    pub oracle_contract: String,
    pub farm_factory_contract: String,
    pub terraswap_router: String,
}

/// Messages specific to the Convex strategy.
#[derive(Clone, Copy, Debug, PartialEq, Eq)]
pub enum ConvexStrategyMsg {
    BalancePeg,
}

/// Switches of a tokenised vault.
#[derive(Clone, Copy, Debug, PartialEq, Eq)]
pub struct Cw4626ConfigOptions {
    pub withdrawals_allowed: Option<bool>,
    pub deposits_allowed: Option<bool>,
}

/// The price feeders registered for an asset.
#[derive(Clone, Debug, PartialEq, Eq)]
pub struct FeedersResponse {
    pub asset: String,
    pub feeders: Vec<String>,
}

} // verus!
