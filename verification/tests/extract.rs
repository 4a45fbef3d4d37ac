use coinbase_scraper::fetch::extract_home_coins;
use coinbase_scraper::json::{parse_json_text, JNode};
use coinbase_scraper::model::ParseError;
use coinbase_scraper::strings::{str_eq, to_ascii_upper, u64_to_string};

fn page(json: &str) -> String {
    format!(
        "<html><head><title>listing</title></head><body><div>noise</div>\
         <script id=\"__NEXT_DATA__\" type=\"application/json\">{}</script></body></html>",
        json
    )
}

const LISTING: &str = r#"{
  "props": {
    "dehydratedState": {
      "queries": [
        {"state": {"data": {"other": 1}}},
        {"state": {"data": {"data": {"listing": {"cryptoCurrencyList": [
          {"id": 1, "name": "Bitcoin", "symbol": "BTC", "cmcRank": 2,
           "quote": {"USD": {"price": 50000.5, "marketCap": 1000000, "percentChange24h": -1.25}}},
          {"id": 2, "name": "Ether", "symbol": "ETH", "cmcRank": 1,
           "quotes": [
             {"name": "EUR", "price": 1900},
             {"name": "USD", "price": 2000.25},
             {"name": "USD", "price": 2001.5}
           ]},
          {"name": "NoIdentity", "symbol": "XXX"},
          {"id": 3, "name": "Bare", "symbol": "BARE"}
        ]}}}}}
      ]
    }
  }
}"#;

#[test]
fn extracts_rows_from_embedded_payload() {
    let html = page(LISTING);
    let rows = extract_home_coins(&html, 42).expect("well-formed page");
    assert_eq!(rows.len(), 3);

    assert_eq!(rows[0].id, 1);
    assert_eq!(rows[0].name, "Bitcoin");
    assert_eq!(rows[0].symbol, "BTC");
    assert_eq!(rows[0].rank, Some(2));
    assert_eq!(rows[0].price_usd.as_deref(), Some("50000.5"));
    assert_eq!(rows[0].market_cap_usd.as_deref(), Some("1000000"));
    assert_eq!(rows[0].chg24h_pct.as_deref(), Some("-1.25"));
    assert_eq!(rows[0].scraped_at, 42);

    // Fallback tier: the last USD entry of the quotes sequence wins.
    assert_eq!(rows[1].id, 2);
    assert_eq!(rows[1].rank, Some(1));
    assert_eq!(rows[1].price_usd.as_deref(), Some("2001.5"));
    assert_eq!(rows[1].market_cap_usd, None);

    // Missing metrics stay absent, never defaulted to zero.
    assert_eq!(rows[2].id, 3);
    assert_eq!(rows[2].price_usd, None);
}

#[test]
fn missing_payload_is_hard_error() {
    let html = "<html><body><p>redesigned page</p></body></html>";
    assert_eq!(extract_home_coins(html, 0), Err(ParseError::PayloadNotFound));
}

#[test]
fn malformed_json_is_hard_error() {
    let html = page("{not json at all");
    assert_eq!(extract_home_coins(&html, 0), Err(ParseError::InvalidJson));
}

#[test]
fn absent_listing_is_hard_error() {
    let html = page(r#"{"props": {"dehydratedState": {"queries": [{"state": {}}]}}}"#);
    assert_eq!(extract_home_coins(&html, 0), Err(ParseError::ListingNotFound));
}

#[test]
fn queries_not_an_array_is_hard_error() {
    let html = page(r#"{"props": {"dehydratedState": {"queries": 5}}}"#);
    assert_eq!(extract_home_coins(&html, 0), Err(ParseError::ListingNotFound));
}

#[test]
fn empty_listing_counts_as_absent() {
    let html = page(
        r#"{"props": {"dehydratedState": {"queries":
            [{"state": {"data": {"data": {"listing": {"cryptoCurrencyList": []}}}}}]}}}"#,
    );
    assert_eq!(extract_home_coins(&html, 0), Err(ParseError::ListingNotFound));
}

#[test]
fn json_nodes_decode_and_answer_field_access() {
    let root = parse_json_text(r#"{"a": {"b": [1, "x"]}, "n": 7}"#).expect("valid document");
    let a = root.get("a").expect("object field");
    let b = a.get("b").expect("nested field");
    let arr = b.as_array().expect("array node");
    assert_eq!(arr.len(), 2);
    assert_eq!(arr[0].as_u64(), Some(1));
    assert_eq!(arr[1].as_text().map(|s| s.as_str()), Some("x"));
    assert_eq!(root.get("n").and_then(|n| n.as_u64()), Some(7));
    assert!(root.get("missing").is_none());
    assert!(parse_json_text("][").is_none());
    let neg = parse_json_text(r#"{"v": -3}"#).expect("valid document");
    assert_eq!(neg.get("v").and_then(|n| n.as_u64()), None);
    match neg.get("v") {
        Some(JNode::Num { uint, repr }) => {
            assert_eq!(*uint, None);
            assert_eq!(repr, "-3");
        },
        other => panic!("expected a number node, got {:?}", other.is_some()),
    }
}

#[test]
fn string_helpers() {
    assert!(str_eq("abc", "abc"));
    assert!(!str_eq("abc", "abd"));
    assert!(!str_eq("abc", "ab"));
    assert_eq!(to_ascii_upper("btc-Usd_9"), "BTC-USD_9");
    assert_eq!(to_ascii_upper(""), "");
    assert_eq!(u64_to_string(0), "0");
    assert_eq!(u64_to_string(18446744073709551615), "18446744073709551615");
}
