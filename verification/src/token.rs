//! Token metadata, resolved once per session.
//!
//! When the chain-side decimals lookup fails, the descriptor falls back to
//! eighteen decimals — and says so: the fallback is recorded in the
//! descriptor, never substituted silently.

use vstd::prelude::*;
use vstd::string::StringExecFns;
use crate::amount::Amount;
use crate::codec::{human_render, to_human};

verus! {

/// A token's decimals and display symbol, with the record of whether the
/// decimals are a fallback rather than a chain-read value.
#[derive(Debug)]
pub struct TokenDescriptor {
    pub decimals: u8,
    pub symbol: String,
    pub fell_back: bool,
}

impl TokenDescriptor {
    /// Build a descriptor from the result of the chain-side decimals call.
    /// A failed lookup yields eighteen decimals and a raised flag.
    pub fn from_lookup(lookup: Option<u8>, symbol: &str) -> (r: TokenDescriptor)
        ensures
            r.decimals == (match lookup {
                Some(d) => d,
                None => 18u8,
            }),
            r.fell_back == (lookup is None),
            r.symbol@ == symbol@,
    {
        match lookup {
            Some(d) => TokenDescriptor { decimals: d, symbol: symbol.to_owned(), fell_back: false },
            None => TokenDescriptor { decimals: 18, symbol: symbol.to_owned(), fell_back: true },
        }
    }

    /// A balance as `<amount> <symbol>`, the amount rendered exactly at
    /// this token's decimals.
    pub fn balance_display(&self, amount: &Amount) -> (r: String)
        ensures
            r@ == human_render(amount.val(), self.decimals as nat) + seq![' '] + self.symbol@,
    {
        let mut out = to_human(amount, self.decimals);
        crate::codec::push_char(&mut out, ' ');
        out.append(self.symbol.as_str());
        proof {
            assert(out@ =~= human_render(amount.val(), self.decimals as nat) + seq![' ']
                + self.symbol@);
        }
        out
    }
}

} // verus!
