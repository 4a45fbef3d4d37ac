//! Data model: one observation of a coin within an ingestion pass, the
//! persistent coin identity and snapshot records, and the read-side
//! projections. Metric values are carried as the decimal text the upstream
//! payload used for them; timestamps are milliseconds since the Unix epoch.
use vstd::prelude::*;

verus! {

/// One coin observation produced by a scrape pass. `scraped_at` is shared by
/// every observation of one pass, so a pass forms one point-in-time snapshot.
#[derive(Debug, PartialEq, Eq)]
pub struct CoinRow {
    pub id: u64,
    pub rank: Option<u64>,
    pub name: String,
    pub symbol: String,
    pub price_usd: Option<String>,
    pub market_cap_usd: Option<String>,
    pub chg24h_pct: Option<String>,
    pub scraped_at: u64,
}

/// The persistent coin identity: created on first sight, never updated.
#[derive(Debug, PartialEq, Eq)]
pub struct Coin {
    pub id: u64,
    pub name: String,
    pub symbol: String,
}

/// One persisted point-in-time observation of a coin; append-only.
#[derive(Debug, PartialEq, Eq)]
pub struct Snapshot {
    pub coin_id: u64,
    pub ts_utc: u64,
    pub rank: Option<u64>,
    pub price_usd: Option<String>,
    pub market_cap_usd: Option<String>,
    pub change_24h: Option<String>,
}

/// A row of the "latest ranked listing" view.
#[derive(Debug, PartialEq, Eq)]
pub struct CoinSummary {
    pub name: String,
    pub symbol: String,
    pub rank: Option<u64>,
    pub price_usd: Option<String>,
    pub market_cap_usd: Option<String>,
    pub change_24h: Option<String>,
}

/// A coin joined with one of its snapshots, as served by the read API.
#[derive(Debug, PartialEq, Eq)]
pub struct CoinResponse {
    pub id: u64,
    pub symbol: String,
    pub name: String,
    pub rank: Option<u64>,
    pub price_usd: Option<String>,
    pub market_cap_usd: Option<String>,
    pub change_24h: Option<String>,
    pub ts_utc: u64,
}

/// One point of a coin's history, oldest-first in query results.
#[derive(Debug, PartialEq, Eq)]
pub struct HistoryPoint {
    pub timestamp: u64,
    pub price_usd: Option<String>,
    pub market_cap_usd: Option<String>,
}

/// The history endpoint's body: the looked-up symbol in upper case and the
/// (timestamp, price) series, oldest first.
#[derive(Debug, PartialEq, Eq)]
pub struct HistoryResponse {
    pub symbol: String,
    pub series: Vec<(u64, Option<String>)>,
}

/// The health endpoint's body.
#[derive(Debug, PartialEq, Eq)]
pub struct HealthResponse {
    pub ok: bool,
}

/// Query parameters of the coins endpoint.
#[derive(Debug, PartialEq, Eq)]
pub struct CoinsQuery {
    pub limit: Option<u32>,
}

/// Query parameters of the history endpoint. The `since` filter is accepted
/// but not applied; the result is always the full (capped) series.
#[derive(Debug, PartialEq, Eq)]
pub struct HistoryQuery {
    pub since: Option<String>,
    pub limit: Option<u32>,
}

/// Why a page's text could not be turned into observations.
#[derive(Debug, PartialEq, Eq, Clone, Copy)]
pub enum ParseError {
    /// The embedded-state container is missing from the markup.
    PayloadNotFound,
    /// The container's text is not a well-formed JSON document.
    InvalidJson,
    /// No entry of the decoded state resolves to a non-empty listing.
    ListingNotFound,
}

fn clone_opt_string(s: &Option<String>) -> (r: Option<String>)
    ensures
        r == *s,
{
    match s {
        Some(v) => Some(v.clone()),
        None => None,
    }
}

impl Clone for CoinRow {
    fn clone(&self) -> (r: Self)
        ensures
            r == *self,
    {
        CoinRow {
            id: self.id,
            rank: self.rank,
            name: self.name.clone(),
            symbol: self.symbol.clone(),
            price_usd: clone_opt_string(&self.price_usd),
            market_cap_usd: clone_opt_string(&self.market_cap_usd),
            chg24h_pct: clone_opt_string(&self.chg24h_pct),
            scraped_at: self.scraped_at,
        }
    }
}

impl Clone for Coin {
    fn clone(&self) -> (r: Self)
        ensures
            r == *self,
    {
        Coin { id: self.id, name: self.name.clone(), symbol: self.symbol.clone() }
    }
}

impl Clone for Snapshot {
    fn clone(&self) -> (r: Self)
        ensures
            r == *self,
    {
        Snapshot {
            coin_id: self.coin_id,
            ts_utc: self.ts_utc,
            rank: self.rank,
            price_usd: clone_opt_string(&self.price_usd),
            market_cap_usd: clone_opt_string(&self.market_cap_usd),
            change_24h: clone_opt_string(&self.change_24h),
        }
    }
}

} // verus!
