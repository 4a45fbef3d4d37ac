use coinbase_scraper::api::{build_history_response, clamp_coins_limit, clamp_history_limit, health};
use coinbase_scraper::database::Database;
use coinbase_scraper::export::{csv_header, csv_record};
use coinbase_scraper::fetch::{merge_rows, plan_batches, sort_rows_by_rank};
use coinbase_scraper::model::{CoinRow, HistoryPoint};

fn row(id: u64, rank: Option<u64>, name: &str, symbol: &str, price: Option<&str>, ts: u64) -> CoinRow {
    CoinRow {
        id,
        rank,
        name: name.to_string(),
        symbol: symbol.to_string(),
        price_usd: price.map(|p| p.to_string()),
        market_cap_usd: None,
        chg24h_pct: None,
        scraped_at: ts,
    }
}

#[test]
fn merge_dedups_across_pages_first_seen_wins() {
    let mut acc = Vec::new();
    let page1 = vec![
        row(1, Some(1), "Bitcoin", "BTC", Some("50000"), 10),
        row(2, Some(2), "Ether", "ETH", Some("2000"), 10),
    ];
    let page2 = vec![
        row(1, Some(7), "BitcoinAgain", "BTC", Some("49999"), 10),
        row(3, Some(3), "Tether", "USDT", Some("1"), 10),
    ];
    merge_rows(&mut acc, page1);
    merge_rows(&mut acc, page2);
    assert_eq!(acc.len(), 3);
    let ones: Vec<&CoinRow> = acc.iter().filter(|r| r.id == 1).collect();
    assert_eq!(ones.len(), 1);
    assert_eq!(ones[0].name, "Bitcoin");
    assert_eq!(ones[0].rank, Some(1));
    assert_eq!(ones[0].price_usd.as_deref(), Some("50000"));
}

#[test]
fn ordering_ranked_ascending_unranked_last_in_encounter_order() {
    let input = vec![
        row(1, Some(3), "three", "A", None, 0),
        row(2, None, "none-first", "B", None, 0),
        row(3, Some(1), "one", "C", None, 0),
        row(4, None, "none-second", "D", None, 0),
        row(5, Some(2), "two", "E", None, 0),
    ];
    let out = sort_rows_by_rank(input);
    let order: Vec<&str> = out.iter().map(|r| r.name.as_str()).collect();
    assert_eq!(order, vec!["one", "two", "three", "none-first", "none-second"]);
}

#[test]
fn coin_upsert_is_idempotent_and_never_updates() {
    let mut db = Database::new();
    db.save_coins(&vec![row(1, Some(1), "Bitcoin", "BTC", Some("50000"), 100)]);
    // Same identity again, with drifted name and symbol case: first write wins.
    db.save_coins(&vec![row(1, Some(1), "Bitcoin Cashish", "BTC", Some("51000"), 200)]);
    let latest = db.get_coin_latest_api("btc").expect("known symbol");
    assert_eq!(latest.name, "Bitcoin");
    assert_eq!(latest.symbol, "BTC");
    // Two snapshots exist, but still one coin: history is one series.
    assert_eq!(db.get_snapshot_count(), 2);
    assert_eq!(db.get_coin_history("BTC").len(), 2);
}

#[test]
fn snapshots_append_only_history_ascending() {
    let mut db = Database::new();
    db.save_coins(&vec![row(1, Some(1), "Bitcoin", "BTC", Some("50000"), 200)]);
    db.save_coins(&vec![row(1, Some(1), "Bitcoin", "BTC", Some("51000"), 100)]);
    let h = db.get_coin_history("BTC");
    assert_eq!(h.len(), 2);
    assert_eq!(h[0].timestamp, 100);
    assert_eq!(h[0].price_usd.as_deref(), Some("51000"));
    assert_eq!(h[1].timestamp, 200);
    assert_eq!(h[1].price_usd.as_deref(), Some("50000"));
}

#[test]
fn latest_ranked_excludes_null_rank_and_older_passes() {
    let mut db = Database::new();
    // Older pass with more ranked entries.
    db.save_coins(&vec![
        row(1, Some(1), "Bitcoin", "BTC", Some("50000"), 100),
        row(2, Some(2), "Ether", "ETH", Some("2000"), 100),
        row(3, Some(3), "Tether", "USDT", Some("1"), 100),
    ]);
    // Newest pass: one ranked, one unranked.
    db.save_coins(&vec![
        row(2, Some(1), "Ether", "ETH", Some("2100"), 200),
        row(4, None, "NoRank", "NR", Some("5"), 200),
    ]);
    let listing = db.get_latest_coins(10);
    assert_eq!(listing.len(), 1);
    assert_eq!(listing[0].symbol, "ETH");
    assert_eq!(listing[0].rank, Some(1));
    assert_eq!(listing[0].price_usd.as_deref(), Some("2100"));
}

#[test]
fn latest_lookup_is_case_insensitive() {
    let mut db = Database::new();
    db.save_coins(&vec![row(1, Some(1), "Bitcoin", "BTC", Some("50000"), 100)]);
    let lower = db.get_coin_latest_api("btc");
    let upper = db.get_coin_latest_api("BTC");
    assert!(lower.is_some());
    assert_eq!(lower, upper);
}

#[test]
fn latest_survives_dropping_out_of_newest_pass() {
    let mut db = Database::new();
    db.save_coins(&vec![
        row(1, Some(1), "Bitcoin", "BTC", Some("50000"), 100),
        row(2, Some(2), "Ether", "ETH", Some("2000"), 100),
    ]);
    // BTC misses the newest pass entirely.
    db.save_coins(&vec![row(2, Some(1), "Ether", "ETH", Some("2100"), 200)]);
    let btc = db.get_coin_latest_api("BTC").expect("still has history");
    assert_eq!(btc.ts_utc, 100);
    assert_eq!(btc.price_usd.as_deref(), Some("50000"));
    // But the ranked listing reflects only the newest pass.
    let listing = db.get_latest_coins(10);
    assert_eq!(listing.len(), 1);
    assert_eq!(listing[0].symbol, "ETH");
}

#[test]
fn unknown_symbol_is_not_found() {
    let mut db = Database::new();
    db.save_coins(&vec![row(1, Some(1), "Bitcoin", "BTC", Some("50000"), 100)]);
    assert!(db.get_coin_latest_api("DOGE").is_none());
    assert_eq!(db.get_coin_history("DOGE").len(), 0);
}

#[test]
fn limit_boundaries_zero_and_clamped() {
    assert_eq!(clamp_coins_limit(Some(0)), 0);
    assert_eq!(clamp_coins_limit(None), 100);
    assert_eq!(clamp_coins_limit(Some(500)), 500);
    assert_eq!(clamp_coins_limit(Some(10000)), 500);
    assert_eq!(clamp_history_limit(None), 500);
    assert_eq!(clamp_history_limit(Some(10000)), 2000);

    let mut db = Database::new();
    db.save_coins(&vec![row(1, Some(1), "Bitcoin", "BTC", Some("50000"), 100)]);
    let listing = db.get_latest_coins_api(clamp_coins_limit(Some(0)) as usize);
    assert_eq!(listing.len(), 0);
}

#[test]
fn end_to_end_two_passes() {
    let mut db = Database::new();
    let t1 = 1_000;
    let t2 = 2_000;
    db.save_coins(&vec![row(1, Some(1), "Bitcoin", "BTC", Some("50000"), t1)]);
    db.save_coins(&vec![row(1, Some(1), "Bitcoin", "BTC", Some("51000"), t2)]);
    let h = db.get_coin_history("BTC");
    assert_eq!(h.len(), 2);
    assert_eq!((h[0].timestamp, h[0].price_usd.as_deref()), (t1, Some("50000")));
    assert_eq!((h[1].timestamp, h[1].price_usd.as_deref()), (t2, Some("51000")));
    let listing = db.get_latest_coins_api(10);
    assert_eq!(listing.len(), 1);
    assert_eq!(listing[0].symbol, "BTC");
    assert_eq!(listing[0].rank, Some(1));
    assert_eq!(listing[0].price_usd.as_deref(), Some("51000"));
    assert_eq!(listing[0].ts_utc, t2);
}

#[test]
fn history_response_uppercases_and_truncates() {
    let points = vec![
        HistoryPoint { timestamp: 1, price_usd: Some("10".to_string()), market_cap_usd: None },
        HistoryPoint { timestamp: 2, price_usd: None, market_cap_usd: None },
        HistoryPoint { timestamp: 3, price_usd: Some("12".to_string()), market_cap_usd: None },
    ];
    let resp = build_history_response("btc", points, 2);
    assert_eq!(resp.symbol, "BTC");
    assert_eq!(resp.series, vec![(1, Some("10".to_string())), (2, None)]);
}

#[test]
fn health_is_ok() {
    assert!(health().ok);
}

#[test]
fn batches_cover_range_bounded() {
    assert_eq!(plan_batches(10, 3), vec![(1, 3), (4, 6), (7, 9), (10, 10)]);
    assert_eq!(plan_batches(6, 3), vec![(1, 3), (4, 6)]);
    assert_eq!(plan_batches(1, 10), vec![(1, 1)]);
    assert_eq!(plan_batches(0, 5), Vec::<(u32, u32)>::new());
}

#[test]
fn csv_shapes() {
    let header = csv_header();
    assert_eq!(
        header,
        vec!["id", "rank", "name", "symbol", "price_usd", "market_cap_usd", "chg24h_pct", "scraped_at"]
    );
    let r = csv_record(&row(12345, Some(7), "Bitcoin", "BTC", Some("50000.5"), 1700000000000));
    assert_eq!(
        r,
        vec!["12345", "7", "Bitcoin", "BTC", "50000.5", "", "", "1700000000000"]
    );
    let r2 = csv_record(&row(1, None, "X", "X", None, 0));
    assert_eq!(r2[1], "");
    assert_eq!(r2[7], "0");
}

#[test]
fn empty_store_answers_empty() {
    let db = Database::new();
    assert_eq!(db.get_snapshot_count(), 0);
    assert_eq!(db.get_latest_coins(10).len(), 0);
    assert_eq!(db.get_latest_coins_api(10).len(), 0);
    assert!(db.get_coin_latest_api("BTC").is_none());
    assert_eq!(db.get_coin_history("BTC").len(), 0);
}

#[test]
fn equal_ranks_keep_encounter_order() {
    let input = vec![
        row(1, Some(5), "first-of-five", "A", None, 0),
        row(2, Some(5), "second-of-five", "B", None, 0),
        row(3, Some(4), "four", "C", None, 0),
    ];
    let out = sort_rows_by_rank(input);
    let order: Vec<&str> = out.iter().map(|r| r.name.as_str()).collect();
    assert_eq!(order, vec!["four", "first-of-five", "second-of-five"]);
}

#[test]
fn listing_keeps_table_order_among_equal_ranks() {
    let mut db = Database::new();
    db.save_coins(&vec![
        row(1, Some(1), "FirstStored", "AAA", None, 100),
        row(2, Some(1), "SecondStored", "BBB", None, 100),
    ]);
    let listing = db.get_latest_coins(10);
    assert_eq!(listing.len(), 2);
    assert_eq!(listing[0].name, "FirstStored");
    assert_eq!(listing[1].name, "SecondStored");
}
