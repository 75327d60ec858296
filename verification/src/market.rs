//! The two market types served by the exchange, with the endpoint bases
//! and the store file each one uses.
use vstd::prelude::*;
use vstd::string::StringExecFns;

verus! {

/// A market type: each one has its own endpoint base and its own store file.
#[derive(Copy, Clone, Debug, PartialEq, Eq, Structural)]
pub enum BinanceType {
    Future,
    Spot,
}

impl BinanceType {
    /// The endpoint base for this market type.
    pub open spec fn url_spec(self) -> Seq<char> {
        match self {
            BinanceType::Future => "https://fapi.binance.com/fapi/v1"@,
            BinanceType::Spot => "https://api.binance.com/api/v3"@,
        }
    }

    /// The file name of this market type's store.
    pub open spec fn db_file_spec(self) -> Seq<char> {
        match self {
            BinanceType::Future => "future.db"@,
            BinanceType::Spot => "v2.db"@,
        }
    }

    pub fn url(&self) -> (r: &str)
        ensures
            r@ == self.url_spec(),
    {
        match self {
            BinanceType::Future => "https://fapi.binance.com/fapi/v1",
            BinanceType::Spot => "https://api.binance.com/api/v3",
        }
    }

    /// The catalog endpoint for this market type.
    pub fn exchange_info(&self) -> (r: String)
        ensures
            r@ == self.url_spec() + "/exchangeInfo"@,
    {
        let mut s = self.url().to_owned();
        s.append("/exchangeInfo");
        s
    }

    /// The candle (kline) endpoint for this market type.
    pub fn klines(&self) -> (r: String)
        ensures
            r@ == self.url_spec() + "/klines"@,
    {
        let mut s = self.url().to_owned();
        s.append("/klines");
        s
    }

    /// The store file for this market type, under the configured directory.
    pub fn db_path(&self, dir: &str) -> (r: String)
        ensures
            r@ == dir@ + "/"@ + self.db_file_spec(),
    {
        let mut s = dir.to_owned();
        s.append("/");
        match self {
            BinanceType::Future => s.append("future.db"),
            BinanceType::Spot => s.append("v2.db"),
        }
        s
    }
}

} // verus!
