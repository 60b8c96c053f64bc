//! Symbols: the tri-part `exchange_currency_asset` names under which
//! files are written.

use vstd::prelude::*;

use crate::utils::{spec_split, split_char};

verus! {

/// A parsed tri-part symbol.
#[derive(Debug)]
pub struct Symbol {
    pub exchange: String,
    pub currency: String,
    pub asset: String,
}

impl Symbol {
    /// Parses `exchange_currency_asset`; any other number of
    /// underscore-separated parts is rejected.
    pub fn from_str(symbol: &str) -> (r: Result<Symbol, ()>)
        ensures
            r is Ok <==> spec_split(symbol@, '_').len() == 3,
            r matches Ok(s) ==> s.exchange@ == spec_split(symbol@, '_')[0] && s.currency@
                == spec_split(symbol@, '_')[1] && s.asset@ == spec_split(symbol@, '_')[2],
    {
        let mut parts = split_char(symbol, '_');
        if parts.len() != 3 {
            return Err(());
        }
        let asset = match parts.pop() {
            Some(p) => p,
            None => {
                return Err(());
            },
        };
        let currency = match parts.pop() {
            Some(p) => p,
            None => {
                return Err(());
            },
        };
        let exchange = match parts.pop() {
            Some(p) => p,
            None => {
                return Err(());
            },
        };
        Ok(Symbol { exchange, currency, asset })
    }
}

/// The kind of asset a symbol names.
#[derive(Clone, Copy, Debug, PartialEq, Eq, Structural)]
pub enum AssetType {
    SPOT,
}

impl Default for AssetType {
    fn default() -> (r: Self)
        ensures
            r == AssetType::SPOT,
    {
        AssetType::SPOT
    }
}

impl AssetType {
    /// The lower-case name of the asset kind.
    pub fn as_text(&self) -> (r: &'static str)
        ensures
            r@ == "spot"@,
    {
        "spot"
    }
}

} // verus!
