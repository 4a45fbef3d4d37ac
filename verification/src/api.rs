//! The pure rules of the read API: limit clamping with documented defaults
//! and ceilings, the health body, and the shaping of a history response.
use vstd::prelude::*;

use crate::model::{HealthResponse, HistoryPoint, HistoryResponse};
use crate::strings::{to_ascii_upper, upper_seq};

verus! {

/// The body of the health endpoint: always well.
pub fn health() -> (r: HealthResponse)
    ensures
        r.ok == true,
{
    HealthResponse { ok: true }
}

/// Clamp the requested listing size for the coins endpoint: a missing limit
/// defaults to 100, and no request may exceed 500.
pub fn clamp_coins_limit(limit: Option<u32>) -> (r: u32)
    ensures
        limit is Some ==> r == if limit->0 <= 500 {
            limit->0
        } else {
            500u32
        },
        limit is None ==> r == 100u32,
{
    match limit {
        Some(l) => {
            if l <= 500 {
                l
            } else {
                500
            }
        },
        None => 100,
    }
}

/// Clamp the requested series length for the history endpoint: a missing
/// limit defaults to 500, and no request may exceed 2000.
pub fn clamp_history_limit(limit: Option<u32>) -> (r: u32)
    ensures
        limit is Some ==> r == if limit->0 <= 2000 {
            limit->0
        } else {
            2000u32
        },
        limit is None ==> r == 500u32,
{
    match limit {
        Some(l) => {
            if l <= 2000 {
                l
            } else {
                2000
            }
        },
        None => 500,
    }
}

/// The (timestamp, price) series of the given history points, in order.
pub open spec fn series_of(points: Seq<HistoryPoint>) -> Seq<(u64, Option<String>)>
    decreases points.len(),
{
    if points.len() == 0 {
        Seq::empty()
    } else {
        series_of(points.drop_last()).push((points.last().timestamp, points.last().price_usd))
    }
}

/// The history endpoint's body: the symbol upper-cased, and the first
/// `limit` history points as a (timestamp, price) series, oldest first.
pub fn build_history_response(symbol: &str, points: Vec<HistoryPoint>, limit: usize) -> (r:
    HistoryResponse)
    ensures
        r.symbol@ == upper_seq(symbol@),
        r.series@ == series_of(
            points@.take(
                if limit as int <= points@.len() {
                    limit as int
                } else {
                    points@.len() as int
                },
            ),
        ),
{
    let n = if limit <= points.len() {
        limit
    } else {
        points.len()
    };
    let ghost pts = points@;
    let mut rest = points;
    let mut series: Vec<(u64, Option<String>)> = Vec::new();
    let ghost mut j: int = 0;
    proof {
        assert(series_of(pts.take(0)) =~= Seq::<(u64, Option<String>)>::empty());
        assert(pts.skip(0) =~= pts);
    }
    while series.len() < n
        invariant
            0 <= j <= n <= pts.len(),
            j == series@.len(),
            rest@ == pts.skip(j),
            series@ == series_of(pts.take(j)),
        decreases n - j,
    {
        let p = rest.remove(0);
        proof {
            assert(p == pts[j]);
            assert(rest@ =~= pts.skip(j + 1));
            assert(pts.take(j + 1).drop_last() =~= pts.take(j));
            assert(pts.take(j + 1).last() == pts[j]);
        }
        series.push((p.timestamp, p.price_usd));
        proof {
            j = j + 1;
        }
    }
    HistoryResponse { symbol: to_ascii_upper(symbol), series }
}

} // verus!
