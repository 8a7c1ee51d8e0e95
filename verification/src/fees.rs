//! Gas cost estimation under the priority-fee model, with a legacy fallback
//! signalled by a distinct error.  All arithmetic is checked; overflow is an
//! error, never a wrapped value.

use vstd::prelude::*;
use crate::amount::{Amount, p256};
use crate::codec::{human_render, to_human};

verus! {

/// Failures of fee estimation.
#[derive(Clone, Copy, Debug, PartialEq, Eq, Structural)]
pub enum FeeError {
    /// The chain reports no base fee, so the priority-fee model does not
    /// apply; the caller may fall back to the legacy gas price.
    UnsupportedFeeModel,
    /// A fee computation exceeded 256 bits.
    Overflow,
}

/// The fixed priority-fee floor, in base units: two gwei.
pub const PRIORITY_FEE_WEI: u64 = 2_000_000_000;

/// A cost quote for a prepared transfer: the simulated gas units and the
/// two priority-model price components.
#[derive(Debug)]
pub struct PreparedTransfer {
    pub gas_estimate: u64,
    pub max_fee_per_gas: Amount,
    pub max_priority_fee_per_gas: Amount,
}

/// Compute the priority-model price components from the latest block's base
/// fee: the priority fee is the fixed floor, and the fee cap is twice the
/// base fee plus that floor, headroom for one base-fee increase.  A chain
/// without a base fee yields `UnsupportedFeeModel`.
pub fn estimate_eip1559_fees(base_fee_per_gas: Option<u64>) -> (r: Result<
    (Amount, Amount),
    FeeError,
>)
    ensures
        r is Ok <==> base_fee_per_gas is Some,
        (r matches Ok(p) ==> {
            &&& base_fee_per_gas matches Some(b) && p.0.val() == 2 * b + PRIORITY_FEE_WEI
            &&& p.1.val() == PRIORITY_FEE_WEI
        }),
        r is Err ==> r == Err::<(Amount, Amount), FeeError>(FeeError::UnsupportedFeeModel),
{
    match base_fee_per_gas {
        None => Err(FeeError::UnsupportedFeeModel),
        Some(b) => {
            let max_fee: u128 = 2 * (b as u128) + (PRIORITY_FEE_WEI as u128);
            Ok((Amount::from_u128(max_fee), Amount::from_u64(PRIORITY_FEE_WEI)))
        },
    }
}

impl PreparedTransfer {
    /// Build a quote from a simulated gas estimate and the latest block's
    /// base fee.
    pub fn from_estimates(gas_estimate: u64, base_fee_per_gas: Option<u64>) -> (r: Result<
        PreparedTransfer,
        FeeError,
    >)
        ensures
            r is Ok <==> base_fee_per_gas is Some,
            (r matches Ok(p) ==> {
                &&& p.gas_estimate == gas_estimate
                &&& base_fee_per_gas matches Some(b) && p.max_fee_per_gas.val() == 2 * b
                    + PRIORITY_FEE_WEI
                &&& p.max_priority_fee_per_gas.val() == PRIORITY_FEE_WEI
            }),
            r is Err ==> r == Err::<PreparedTransfer, FeeError>(FeeError::UnsupportedFeeModel),
    {
        match estimate_eip1559_fees(base_fee_per_gas) {
            Err(e) => Err(e),
            Ok((max_fee, priority)) => Ok(
                PreparedTransfer {
                    gas_estimate,
                    max_fee_per_gas: max_fee,
                    max_priority_fee_per_gas: priority,
                },
            ),
        }
    }

    /// A quote under the legacy single-price model, the fallback when the
    /// chain supports no base fee: the network gas price stands as both
    /// price components, so the total cost is gas units times that price.
    pub fn from_legacy_price(gas_estimate: u64, gas_price: u128) -> (r: PreparedTransfer)
        ensures
            r.gas_estimate == gas_estimate,
            r.max_fee_per_gas.val() == gas_price,
            r.max_priority_fee_per_gas.val() == gas_price,
    {
        PreparedTransfer {
            gas_estimate,
            max_fee_per_gas: Amount::from_u128(gas_price),
            max_priority_fee_per_gas: Amount::from_u128(gas_price),
        }
    }

    /// The total cost of the transfer at the fee cap: gas units times the
    /// cap, exactly, with the rendering at the given decimals (eighteen
    /// when unspecified).  Overflow beyond 256 bits is an error.
    pub fn calculate_fee(&self, decimals: Option<u8>) -> (r: Result<(Amount, String), FeeError>)
        ensures
            r is Ok <==> self.max_fee_per_gas.val() * self.gas_estimate < p256(),
            (r matches Ok(p) ==> {
                &&& p.0.val() == self.max_fee_per_gas.val() * self.gas_estimate
                &&& p.1@ == human_render(
                    (self.max_fee_per_gas.val() * self.gas_estimate) as nat,
                    match decimals {
                        Some(d) => d as nat,
                        None => 18,
                    },
                )
            }),
            r is Err ==> r == Err::<(Amount, String), FeeError>(FeeError::Overflow),
    {
        let fee_wei = match self.max_fee_per_gas.mul_add_small(self.gas_estimate, 0) {
            Some(v) => v,
            None => {
                return Err(FeeError::Overflow);
            },
        };
        let d: u8 = match decimals {
            Some(d) => d,
            None => 18,
        };
        let fee_human = to_human(&fee_wei, d);
        Ok((fee_wei, fee_human))
    }

    pub fn get_gas_units(&self) -> (r: u64)
        ensures
            r == self.gas_estimate,
    {
        self.gas_estimate
    }

    pub fn get_max_fee_per_gas(&self) -> (r: Amount)
        ensures
            r == self.max_fee_per_gas,
    {
        self.max_fee_per_gas
    }

    pub fn get_max_priority_fee_per_gas(&self) -> (r: Amount)
        ensures
            r == self.max_priority_fee_per_gas,
    {
        self.max_priority_fee_per_gas
    }

    /// Both price components as `u128`, as transaction submission needs
    /// them; `None` exactly when one does not fit.
    pub fn fee_caps_as_u128(&self) -> (r: Option<(u128, u128)>)
        ensures
            r is Some <==> (self.max_fee_per_gas.val() < crate::amount::p128()
                && self.max_priority_fee_per_gas.val() < crate::amount::p128()),
            (r matches Some(p) ==> p.0 == self.max_fee_per_gas.val() && p.1
                == self.max_priority_fee_per_gas.val()),
    {
        match (self.max_fee_per_gas.try_to_u128(), self.max_priority_fee_per_gas.try_to_u128()) {
            (Some(a), Some(b)) => Some((a, b)),
            _ => None,
        }
    }
}

} // verus!
