//! The shape of the CSV export: the fixed header and one record per
//! observation, every field as text, absent metrics as empty fields.
use vstd::prelude::*;

use crate::model::CoinRow;
use crate::strings::{dec_str, u64_to_string};

verus! {

/// The text of an optional field: its value, or nothing.
pub open spec fn opt_field(o: Option<String>) -> Seq<char> {
    match o {
        Some(s) => s@,
        None => Seq::empty(),
    }
}

/// The text of an optional rank: its digits, or nothing.
pub open spec fn opt_rank_field(o: Option<u64>) -> Seq<char> {
    match o {
        Some(v) => dec_str(v),
        None => Seq::empty(),
    }
}

/// The export header, one name per record field.
pub fn csv_header() -> (r: Vec<String>)
    ensures
        r@.len() == 8,
        r@[0]@ == "id"@,
        r@[1]@ == "rank"@,
        r@[2]@ == "name"@,
        r@[3]@ == "symbol"@,
        r@[4]@ == "price_usd"@,
        r@[5]@ == "market_cap_usd"@,
        r@[6]@ == "chg24h_pct"@,
        r@[7]@ == "scraped_at"@,
{
    let mut out: Vec<String> = Vec::new();
    out.push("id".to_owned());
    out.push("rank".to_owned());
    out.push("name".to_owned());
    out.push("symbol".to_owned());
    out.push("price_usd".to_owned());
    out.push("market_cap_usd".to_owned());
    out.push("chg24h_pct".to_owned());
    out.push("scraped_at".to_owned());
    out
}

fn opt_string_field(o: &Option<String>) -> (r: String)
    ensures
        r@ == opt_field(*o),
{
    match o {
        Some(s) => s.clone(),
        None => {
            let e = String::new();
            e
        },
    }
}

/// One export record: the header's fields in order, numbers in decimal,
/// absent metrics empty, the pass timestamp as epoch milliseconds.
pub fn csv_record(row: &CoinRow) -> (r: Vec<String>)
    ensures
        r@.len() == 8,
        r@[0]@ == dec_str(row.id),
        r@[1]@ == opt_rank_field(row.rank),
        r@[2]@ == row.name@,
        r@[3]@ == row.symbol@,
        r@[4]@ == opt_field(row.price_usd),
        r@[5]@ == opt_field(row.market_cap_usd),
        r@[6]@ == opt_field(row.chg24h_pct),
        r@[7]@ == dec_str(row.scraped_at),
{
    let mut out: Vec<String> = Vec::new();
    out.push(u64_to_string(row.id));
    match &row.rank {
        Some(v) => {
            out.push(u64_to_string(*v));
        },
        None => {
            out.push(String::new());
        },
    }
    out.push(row.name.clone());
    out.push(row.symbol.clone());
    out.push(opt_string_field(&row.price_usd));
    out.push(opt_string_field(&row.market_cap_usd));
    out.push(opt_string_field(&row.chg24h_pct));
    out.push(u64_to_string(row.scraped_at));
    out
}

} // verus!
