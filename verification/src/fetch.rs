//! Turning one page's markup into coin observations, and the batch rules of
//! a scrape run: locating the embedded state, walking its fixed nesting path,
//! mapping listing entries to records, merging pages with first-seen
//! deduplication, ordering by rank, and planning bounded fetch batches.
use vstd::prelude::*;

use crate::json::{jget, json_tree_of, parse_json_text, spec_as_u64, spec_num_repr, JNode};
use crate::model::{CoinRow, ParseError};
use crate::sorting::{sort_by_first, sort_pairs};
use crate::strings::str_eq;

verus! {

/// Chained field access: `None` short-circuits.
pub open spec fn jget_opt(n: Option<JNode>, key: Seq<char>) -> Option<JNode> {
    match n {
        Some(v) => jget(v, key),
        None => None,
    }
}

/// The unsigned-integer field under `key`, if it is a number with one.
pub open spec fn ju64(v: JNode, key: Seq<char>) -> Option<u64> {
    match jget(v, key) {
        Some(n) => spec_as_u64(n),
        None => None,
    }
}

/// The text field under `key`, if it is a string.
pub open spec fn jtext(v: JNode, key: Seq<char>) -> Option<String> {
    match jget(v, key) {
        Some(n) => match n {
            JNode::Text(s) => Some(s),
            _ => None,
        },
        None => None,
    }
}

/// The decimal rendering of the number field under `key`.
pub open spec fn jnum(v: JNode, key: Seq<char>) -> Option<String> {
    match jget(v, key) {
        Some(n) => spec_num_repr(n),
        None => None,
    }
}

/// The non-empty listing one query entry of the dehydrated state resolves to.
pub open spec fn query_listing(q: JNode) -> Option<Seq<JNode>> {
    let path = jget_opt(
        jget_opt(jget_opt(jget_opt(jget(q, "state"@), "data"@), "data"@), "listing"@),
        "cryptoCurrencyList"@,
    );
    match path {
        Some(JNode::Arr(list)) => if list@.len() > 0 {
            Some(list@)
        } else {
            None
        },
        _ => None,
    }
}

/// The first query entry whose nested path resolves to a non-empty listing.
pub open spec fn locate_listing(queries: Seq<JNode>) -> Option<Seq<JNode>>
    decreases queries.len(),
{
    if queries.len() == 0 {
        None
    } else if query_listing(queries.first()) is Some {
        query_listing(queries.first())
    } else {
        locate_listing(queries.drop_first())
    }
}

/// The listing of the whole document: under `props.dehydratedState.queries`,
/// the first entry with a non-empty `cryptoCurrencyList`.
pub open spec fn crypto_list_of(root: JNode) -> Option<Seq<JNode>> {
    match jget_opt(jget_opt(jget(root, "props"@), "dehydratedState"@), "queries"@) {
        Some(JNode::Arr(queries)) => locate_listing(queries@),
        _ => None,
    }
}

/// Whether a quote entry names the USD currency.
pub open spec fn is_usd_quote(q: JNode) -> bool {
    match jget(q, "name"@) {
        Some(JNode::Text(s)) => s@ == "USD"@,
        _ => false,
    }
}

/// The USD entry of a `quotes` sequence; with repeated names the last
/// occurrence wins, as a keyed rebuild of the sequence would have it.
pub open spec fn find_usd_quote(quotes: Seq<JNode>) -> Option<JNode>
    decreases quotes.len(),
{
    if quotes.len() == 0 {
        None
    } else if is_usd_quote(quotes.last()) {
        Some(quotes.last())
    } else {
        find_usd_quote(quotes.drop_last())
    }
}

/// The three USD metrics of an observation: preferably from the direct
/// `quote.USD` object; where that yields no price, all three are re-read from
/// the `quotes` sequence's USD entry, if there is one.
pub open spec fn coin_metrics(v: JNode) -> (Option<String>, Option<String>, Option<String>) {
    let tier1 = match jget_opt(jget(v, "quote"@), "USD"@) {
        Some(q) => (jnum(q, "price"@), jnum(q, "marketCap"@), jnum(q, "percentChange24h"@)),
        None => (None, None, None),
    };
    if tier1.0 is Some {
        tier1
    } else {
        match jget(v, "quotes"@) {
            Some(JNode::Arr(quotes)) => match find_usd_quote(quotes@) {
                Some(q) => (jnum(q, "price"@), jnum(q, "marketCap"@), jnum(q, "percentChange24h"@)),
                None => tier1,
            },
            _ => tier1,
        }
    }
}

/// The observation one listing entry maps to: entries missing `id`, `name`
/// or `symbol` are dropped; missing metrics stay absent, never defaulted.
pub open spec fn parse_coin_spec(v: JNode, scraped_at: u64) -> Option<CoinRow> {
    let id = ju64(v, "id"@);
    let name = jtext(v, "name"@);
    let symbol = jtext(v, "symbol"@);
    if id is None || name is None || symbol is None {
        None
    } else {
        let m = coin_metrics(v);
        Some(
            CoinRow {
                id: id->0,
                rank: ju64(v, "cmcRank"@),
                name: name->0,
                symbol: symbol->0,
                price_usd: m.0,
                market_cap_usd: m.1,
                chg24h_pct: m.2,
                scraped_at,
            },
        )
    }
}

/// The observations of a listing, in listing order, malformed entries left
/// out.
pub open spec fn extract_rows(list: Seq<JNode>, scraped_at: u64) -> Seq<CoinRow>
    decreases list.len(),
{
    if list.len() == 0 {
        Seq::empty()
    } else {
        let front = extract_rows(list.drop_last(), scraped_at);
        match parse_coin_spec(list.last(), scraped_at) {
            Some(r) => front.push(r),
            None => front,
        }
    }
}

/// The CSS selector of the embedded-state container.
pub open spec fn payload_selector() -> Seq<char> {
    "script#__NEXT_DATA__"@
}

/// What one page's markup yields: the result of locating the embedded
/// payload, decoding it, and mapping the listing.
pub open spec fn extract_result(html: Seq<char>, scraped_at: u64) -> Result<Seq<CoinRow>, ParseError> {
    match payload_text(html, payload_selector()) {
        None => Err(ParseError::PayloadNotFound),
        Some(text) => match json_tree_of(text) {
            None => Err(ParseError::InvalidJson),
            Some(root) => match crypto_list_of(root) {
                None => Err(ParseError::ListingNotFound),
                Some(list) => Ok(extract_rows(list, scraped_at)),
            },
        },
    }
}

/// The text of the first element the selector matches in the markup, a
/// function of the two texts alone.
pub uninterp spec fn payload_text(html: Seq<char>, selector: Seq<char>) -> Option<Seq<char>>;

/// Relies on scraper's Html::parse_document, Selector::parse and
/// Html::select: parses the markup as an HTML document and hands back the
/// first text node of the first element matching the selector.
#[verifier::external_body]
fn find_embedded_payload(html: &str, selector: &str) -> (r: Option<String>)
    ensures
        match r {
            Some(s) => payload_text(html@, selector@) == Some(s@),
            None => payload_text(html@, selector@) is None,
        },
{
    let doc = scraper::Html::parse_document(html);
    let sel = scraper::Selector::parse(selector).ok()?;
    doc.select(&sel).next().and_then(|n| n.text().next()).map(|s| s.to_string())
}

/// The non-empty listing of one query entry, as a borrowed array.
fn query_listing_exec<'a>(q: &'a JNode) -> (r: Option<&'a Vec<JNode>>)
    ensures
        match r {
            Some(list) => query_listing(*q) == Some(list@) && list@.len() > 0,
            None => query_listing(*q) is None,
        },
{
    let state = match q.get("state") {
        Some(n) => n,
        None => {
            return None;
        },
    };
    let d1 = match state.get("data") {
        Some(n) => n,
        None => {
            return None;
        },
    };
    let d2 = match d1.get("data") {
        Some(n) => n,
        None => {
            return None;
        },
    };
    let listing = match d2.get("listing") {
        Some(n) => n,
        None => {
            return None;
        },
    };
    let cl = match listing.get("cryptoCurrencyList") {
        Some(n) => n,
        None => {
            return None;
        },
    };
    match cl.as_array() {
        Some(list) => {
            if list.len() > 0 {
                Some(list)
            } else {
                None
            }
        },
        None => None,
    }
}

/// Walk the fixed nesting path to the first non-empty listing; `None` where
/// no query entry resolves.
pub fn locate_crypto_list<'a>(root: &'a JNode) -> (r: Option<&'a Vec<JNode>>)
    ensures
        match r {
            Some(list) => crypto_list_of(*root) == Some(list@) && list@.len() > 0,
            None => crypto_list_of(*root) is None,
        },
{
    let props = match root.get("props") {
        Some(n) => n,
        None => {
            return None;
        },
    };
    let ds = match props.get("dehydratedState") {
        Some(n) => n,
        None => {
            return None;
        },
    };
    let qnode = match ds.get("queries") {
        Some(n) => n,
        None => {
            return None;
        },
    };
    let queries = match qnode.as_array() {
        Some(v) => v,
        None => {
            return None;
        },
    };
    let mut i: usize = 0;
    proof {
        assert(queries@.skip(0) =~= queries@);
    }
    while i < queries.len()
        invariant
            i <= queries@.len(),
            locate_listing(queries@) == locate_listing(queries@.skip(i as int)),
            crypto_list_of(*root) == locate_listing(queries@),
        decreases queries@.len() - i,
    {
        proof {
            assert(queries@.skip(i as int).first() == queries@[i as int]);
            assert(queries@.skip(i as int).drop_first() =~= queries@.skip(i as int + 1));
        }
        match query_listing_exec(&queries[i]) {
            Some(list) => {
                return Some(list);
            },
            None => {},
        }
        i = i + 1;
    }
    proof {
        assert(queries@.skip(queries@.len() as int) =~= Seq::<JNode>::empty());
    }
    None
}

/// The decimal rendering of the number field under `key`, cloned out.
fn metric_of(v: &JNode, key: &str) -> (r: Option<String>)
    ensures
        r == jnum(*v, key@),
{
    match v.get(key) {
        Some(n) => match n.num_repr() {
            Some(s) => Some(s.clone()),
            None => None,
        },
        None => None,
    }
}

/// The USD entry of the quotes array, last occurrence winning.
fn find_usd_quote_exec<'a>(quotes: &'a Vec<JNode>) -> (r: Option<&'a JNode>)
    ensures
        match r {
            Some(q) => find_usd_quote(quotes@) == Some(*q),
            None => find_usd_quote(quotes@) is None,
        },
{
    let mut found: Option<&JNode> = None;
    let mut i: usize = 0;
    proof {
        assert(quotes@.take(0) =~= Seq::<JNode>::empty());
    }
    while i < quotes.len()
        invariant
            i <= quotes@.len(),
            match found {
                Some(q) => find_usd_quote(quotes@.take(i as int)) == Some(*q),
                None => find_usd_quote(quotes@.take(i as int)) is None,
            },
        decreases quotes@.len() - i,
    {
        proof {
            assert(quotes@.take(i as int + 1).drop_last() =~= quotes@.take(i as int));
            assert(quotes@.take(i as int + 1).last() == quotes@[i as int]);
        }
        let q = &quotes[i];
        let is_usd = match q.get("name") {
            Some(n) => match n.as_text() {
                Some(s) => str_eq(s.as_str(), "USD"),
                None => false,
            },
            None => false,
        };
        if is_usd {
            found = Some(q);
        }
        i = i + 1;
    }
    proof {
        assert(quotes@.take(quotes@.len() as int) =~= quotes@);
    }
    found
}

/// Map one listing entry to an observation: `id`, `name` and `symbol` are
/// required, the USD metrics come from the two-tier quote lookup, and
/// `scraped_at` stamps the record with the pass's shared timestamp.
pub fn parse_coin_object(v: &JNode, scraped_at: u64) -> (r: Option<CoinRow>)
    ensures
        r == parse_coin_spec(*v, scraped_at),
{
    let id = match v.get("id") {
        Some(n) => match n.as_u64() {
            Some(u) => u,
            None => {
                return None;
            },
        },
        None => {
            return None;
        },
    };
    let name = match v.get("name") {
        Some(n) => match n.as_text() {
            Some(s) => s.clone(),
            None => {
                return None;
            },
        },
        None => {
            return None;
        },
    };
    let symbol = match v.get("symbol") {
        Some(n) => match n.as_text() {
            Some(s) => s.clone(),
            None => {
                return None;
            },
        },
        None => {
            return None;
        },
    };
    let rank = match v.get("cmcRank") {
        Some(n) => n.as_u64(),
        None => None,
    };
    let quote_usd = match v.get("quote") {
        Some(q) => q.get("USD"),
        None => None,
    };
    let mut price_usd: Option<String> = None;
    let mut market_cap_usd: Option<String> = None;
    let mut chg24h_pct: Option<String> = None;
    match quote_usd {
        Some(q) => {
            price_usd = metric_of(q, "price");
            market_cap_usd = metric_of(q, "marketCap");
            chg24h_pct = metric_of(q, "percentChange24h");
        },
        None => {},
    }
    if price_usd.is_none() {
        let quotes = match v.get("quotes") {
            Some(n) => n.as_array(),
            None => None,
        };
        match quotes {
            Some(qs) => {
                match find_usd_quote_exec(qs) {
                    Some(q) => {
                        price_usd = metric_of(q, "price");
                        market_cap_usd = metric_of(q, "marketCap");
                        chg24h_pct = metric_of(q, "percentChange24h");
                    },
                    None => {},
                }
            },
            None => {},
        }
    }
    Some(
        CoinRow {
            id,
            rank,
            name,
            symbol,
            price_usd,
            market_cap_usd,
            chg24h_pct,
            scraped_at,
        },
    )
}

/// Extract one page's observations from its raw markup. Structural absence
/// of the payload or the listing is a hard error; entries missing identity
/// fields are silently dropped.
pub fn extract_home_coins(html: &str, scraped_at: u64) -> (r: Result<Vec<CoinRow>, ParseError>)
    ensures
        match r {
            Ok(rows) => extract_result(html@, scraped_at) == Ok::<Seq<CoinRow>, ParseError>(rows@),
            Err(e) => extract_result(html@, scraped_at) == Err::<Seq<CoinRow>, ParseError>(e),
        },
{
    let text = match find_embedded_payload(html, "script#__NEXT_DATA__") {
        Some(t) => t,
        None => {
            return Err(ParseError::PayloadNotFound);
        },
    };
    let root = match parse_json_text(text.as_str()) {
        Some(n) => n,
        None => {
            return Err(ParseError::InvalidJson);
        },
    };
    let list = match locate_crypto_list(&root) {
        Some(l) => l,
        None => {
            return Err(ParseError::ListingNotFound);
        },
    };
    let mut out: Vec<CoinRow> = Vec::new();
    let mut i: usize = 0;
    proof {
        assert(list@.take(0) =~= Seq::<JNode>::empty());
    }
    while i < list.len()
        invariant
            i <= list@.len(),
            out@ == extract_rows(list@.take(i as int), scraped_at),
        decreases list@.len() - i,
    {
        proof {
            assert(list@.take(i as int + 1).drop_last() =~= list@.take(i as int));
            assert(list@.take(i as int + 1).last() == list@[i as int]);
        }
        match parse_coin_object(&list[i], scraped_at) {
            Some(row) => {
                out.push(row);
            },
            None => {},
        }
        i = i + 1;
    }
    proof {
        assert(list@.take(list@.len() as int) =~= list@);
    }
    Ok(out)
}

/// Whether some row carries this id.
pub open spec fn contains_id(rows: Seq<CoinRow>, id: u64) -> bool {
    exists|k: int| 0 <= k < rows.len() && rows[k].id == id
}

/// No two rows share an id.
pub open spec fn unique_ids(rows: Seq<CoinRow>) -> bool {
    forall|i: int, j: int| 0 <= i < j < rows.len() ==> rows[i].id != rows[j].id
}

/// The first row of `rows` carrying `id`.
pub open spec fn first_with_id(rows: Seq<CoinRow>, id: u64) -> CoinRow
    decreases rows.len(),
{
    if rows.len() == 0 {
        arbitrary()
    } else if rows.first().id == id {
        rows.first()
    } else {
        first_with_id(rows.drop_first(), id)
    }
}

/// `acc` extended by the page rows whose id is not already present, in page
/// order: the first occurrence of an id wins across and within pages.
pub open spec fn merged_rows(acc: Seq<CoinRow>, page: Seq<CoinRow>) -> Seq<CoinRow>
    decreases page.len(),
{
    if page.len() == 0 {
        acc
    } else {
        let m = merged_rows(acc, page.drop_last());
        if contains_id(m, page.last().id) {
            m
        } else {
            m.push(page.last())
        }
    }
}

fn has_id(rows: &Vec<CoinRow>, id: u64) -> (r: bool)
    ensures
        r == contains_id(rows@, id),
{
    let mut i: usize = 0;
    while i < rows.len()
        invariant
            i <= rows@.len(),
            forall|k: int| 0 <= k < i ==> rows@[k].id != id,
        decreases rows@.len() - i,
    {
        if rows[i].id == id {
            return true;
        }
        i = i + 1;
    }
    false
}

/// Merge one page's observations into the run's accumulator, keeping the
/// first occurrence of each id.
pub fn merge_rows(acc: &mut Vec<CoinRow>, page: Vec<CoinRow>)
    ensures
        final(acc)@ == merged_rows(old(acc)@, page@),
{
    let ghost orig = page@;
    let ghost acc0 = acc@;
    let mut rest = page;
    let ghost mut i: int = 0;
    proof {
        assert(orig.take(0) =~= Seq::<CoinRow>::empty());
        assert(orig.skip(0) =~= orig);
    }
    while rest.len() > 0
        invariant
            0 <= i <= orig.len(),
            rest@ == orig.skip(i),
            acc@ == merged_rows(acc0, orig.take(i)),
        decreases rest@.len(),
    {
        let row = rest.remove(0);
        proof {
            assert(row == orig[i]);
            assert(rest@ =~= orig.skip(i + 1));
            assert(orig.take(i + 1).drop_last() =~= orig.take(i));
            assert(orig.take(i + 1).last() == orig[i]);
        }
        if !has_id(acc, row.id) {
            acc.push(row);
        }
        proof {
            i = i + 1;
        }
    }
    proof {
        assert(orig.take(orig.len() as int) =~= orig);
    }
}

/// Merging keeps ids unique, keeps the accumulated rows unchanged in place,
/// covers exactly the ids of both inputs, and retains, for each id that is
/// new, the first page row that carried it.
pub proof fn lemma_merged_rows_dedup(acc: Seq<CoinRow>, page: Seq<CoinRow>)
    requires
        unique_ids(acc),
    ensures
        unique_ids(merged_rows(acc, page)),
        merged_rows(acc, page).len() >= acc.len(),
        forall|k: int| 0 <= k < acc.len() ==> merged_rows(acc, page)[k] == acc[k],
        forall|id: u64|
            contains_id(merged_rows(acc, page), id) <==> (contains_id(acc, id) || contains_id(
                page,
                id,
            )),
        forall|id: u64|
            !contains_id(acc, id) && contains_id(page, id) ==> merged_rows(acc, page).contains(
                first_with_id(page, id),
            ),
    decreases page.len(),
{
    if page.len() == 0 {
    } else {
        let dl = page.drop_last();
        let last = page.last();
        lemma_merged_rows_dedup(acc, dl);
        let m = merged_rows(acc, dl);
        assert forall|id: u64|
            contains_id(merged_rows(acc, page), id) <==> (contains_id(acc, id) || contains_id(
                page,
                id,
            )) by {
            assert(contains_id(page, id) <==> (contains_id(dl, id) || last.id == id)) by {
                if contains_id(page, id) {
                    let k = choose|k: int| 0 <= k < page.len() && page[k].id == id;
                    if k < page.len() - 1 {
                        assert(dl[k].id == id);
                    }
                }
                if contains_id(dl, id) {
                    let k = choose|k: int| 0 <= k < dl.len() && dl[k].id == id;
                    assert(page[k].id == id);
                }
                if last.id == id {
                    assert(page[page.len() - 1].id == id);
                }
            }
            if !contains_id(m, last.id) {
                assert(merged_rows(acc, page) == m.push(last));
                if contains_id(m, id) {
                    let k = choose|k: int| 0 <= k < m.len() && m[k].id == id;
                    assert(m.push(last)[k].id == id);
                }
                assert(m.push(last)[m.len() as int].id == last.id);
                if contains_id(m.push(last), id) {
                    let k = choose|k: int| 0 <= k < m.push(last).len() && m.push(last)[k].id == id;
                    if k < m.len() {
                        assert(m[k].id == id);
                    }
                }
            }
        }
        assert(unique_ids(merged_rows(acc, page))) by {
            if !contains_id(m, last.id) {
                assert forall|i: int, j: int|
                    0 <= i < j < m.push(last).len() implies m.push(last)[i].id != m.push(
                    last,
                )[j].id by {
                    if j < m.len() {
                    } else {
                        assert(m.push(last)[i] == m[i]);
                        if m[i].id == last.id {
                            assert(contains_id(m, last.id));
                        }
                    }
                }
            }
        }
        assert forall|id: u64|
            !contains_id(acc, id) && contains_id(page, id) implies merged_rows(
            acc,
            page,
        ).contains(first_with_id(page, id)) by {
            assert(dl.push(last) =~= page);
            lemma_first_with_id_extend(dl, last, id);
            assert(first_with_id(dl.push(last), id) == first_with_id(page, id));
            if contains_id(dl, id) {
                assert(m.contains(first_with_id(dl, id)));
                let k = choose|k: int| 0 <= k < m.len() && m[k] == first_with_id(dl, id);
                if !contains_id(m, last.id) {
                    assert(m.push(last)[k] == m[k]);
                }
            } else {
                assert(last.id == id);
                assert(first_with_id(page, id) == last);
                assert(!contains_id(m, id));
                assert(merged_rows(acc, page) == m.push(last));
                assert(m.push(last)[m.len() as int] == last);
            }
        }
    }
}

/// How the first row with an id behaves when one row is appended.
proof fn lemma_first_with_id_extend(dl: Seq<CoinRow>, last: CoinRow, id: u64)
    ensures
        contains_id(dl, id) ==> first_with_id(dl.push(last), id) == first_with_id(dl, id),
        !contains_id(dl, id) && last.id == id ==> first_with_id(dl.push(last), id) == last,
    decreases dl.len(),
{
    if dl.len() == 0 {
        assert(dl.push(last).first() == last);
        assert(dl.push(last).len() == 1);
    } else {
        lemma_first_with_id_extend(dl.drop_first(), last, id);
        assert(dl.push(last).first() == dl.first());
        assert(dl.push(last).drop_first() =~= dl.drop_first().push(last));
        if contains_id(dl, id) {
            if dl.first().id == id {
            } else {
                assert(contains_id(dl.drop_first(), id)) by {
                    let k = choose|k: int| 0 <= k < dl.len() && dl[k].id == id;
                    assert(dl.drop_first()[k - 1].id == id);
                }
            }
        } else {
            assert(!contains_id(dl.drop_first(), id)) by {
                if contains_id(dl.drop_first(), id) {
                    let k = choose|k: int|
                        0 <= k < dl.drop_first().len() && dl.drop_first()[k].id == id;
                    assert(dl[k + 1].id == id);
                }
            }
            assert(dl.first().id != id);
        }
    }
}

/// The ordering key of an observation: its rank, with unranked entries
/// keyed past every rank.
pub open spec fn rank_key(r: CoinRow) -> u64 {
    match r.rank {
        Some(k) => k,
        None => u64::MAX,
    }
}

/// An observation keyed for the final ordering.
pub open spec fn to_rank_pair(r: CoinRow) -> (u64, CoinRow) {
    (rank_key(r), r)
}

/// The observations keyed by rank, in order.
pub open spec fn rows_pairs(rows: Seq<CoinRow>) -> Seq<(u64, CoinRow)> {
    rows.map_values(|r: CoinRow| to_rank_pair(r))
}

/// The observations of a keyed sequence, in order.
pub open spec fn pairs_rows(pairs: Seq<(u64, CoinRow)>) -> Seq<CoinRow> {
    pairs.map_values(|p: (u64, CoinRow)| p.1)
}

proof fn lemma_rows_pairs_push(rows: Seq<CoinRow>, r: CoinRow)
    ensures
        rows_pairs(rows.push(r)) == rows_pairs(rows).push(to_rank_pair(r)),
{
    assert(rows_pairs(rows.push(r)) =~= rows_pairs(rows).push(to_rank_pair(r)));
}

proof fn lemma_pairs_rows_push(pairs: Seq<(u64, CoinRow)>, p: (u64, CoinRow))
    ensures
        pairs_rows(pairs.push(p)) == pairs_rows(pairs).push(p.1),
{
    assert(pairs_rows(pairs.push(p)) =~= pairs_rows(pairs).push(p.1));
}

/// The run's final ordering: ascending rank, unranked entries after all
/// ranked ones, encounter order kept among ties.
pub open spec fn sorted_rows(rows: Seq<CoinRow>) -> Seq<CoinRow> {
    pairs_rows(sort_pairs(rows_pairs(rows)))
}

/// Order a run's merged observations by ascending rank, unranked entries
/// last, preserving encounter order among equal keys.
pub fn sort_rows_by_rank(rows: Vec<CoinRow>) -> (r: Vec<CoinRow>)
    ensures
        r@ == sorted_rows(rows@),
{
    let ghost orig = rows@;
    let mut rest = rows;
    let mut pairs: Vec<(u64, CoinRow)> = Vec::new();
    let ghost mut i: int = 0;
    proof {
        assert(rows_pairs(orig.take(0)) =~= Seq::<(u64, CoinRow)>::empty());
        assert(orig.skip(0) =~= orig);
    }
    while rest.len() > 0
        invariant
            0 <= i <= orig.len(),
            rest@ == orig.skip(i),
            pairs@ == rows_pairs(orig.take(i)),
        decreases rest@.len(),
    {
        let row = rest.remove(0);
        proof {
            assert(row == orig[i]);
            assert(rest@ =~= orig.skip(i + 1));
        }
        let key = match row.rank {
            Some(k) => k,
            None => u64::MAX,
        };
        proof {
            assert(key == rank_key(orig[i]));
            assert(orig.take(i + 1) =~= orig.take(i).push(orig[i]));
            lemma_rows_pairs_push(orig.take(i), orig[i]);
        }
        pairs.push((key, row));
        proof {
            i = i + 1;
        }
    }
    proof {
        assert(orig.take(orig.len() as int) =~= orig);
    }
    let sorted = sort_by_first(pairs);
    let ghost spairs = sort_pairs(rows_pairs(orig));
    let mut rest2 = sorted;
    let mut out: Vec<CoinRow> = Vec::new();
    let ghost mut j: int = 0;
    proof {
        assert(pairs_rows(spairs.take(0)) =~= Seq::<CoinRow>::empty());
        assert(spairs.skip(0) =~= spairs);
    }
    while rest2.len() > 0
        invariant
            0 <= j <= spairs.len(),
            rest2@ == spairs.skip(j),
            out@ == pairs_rows(spairs.take(j)),
        decreases rest2@.len(),
    {
        let p = rest2.remove(0);
        proof {
            assert(p == spairs[j]);
            assert(rest2@ =~= spairs.skip(j + 1));
            assert(spairs.take(j + 1) =~= spairs.take(j).push(spairs[j]));
            lemma_pairs_rows_push(spairs.take(j), spairs[j]);
        }
        out.push(p.1);
        proof {
            j = j + 1;
        }
    }
    proof {
        assert(spairs.take(spairs.len() as int) =~= spairs);
    }
    out
}

/// Whether a chunk list covers `[1, pages]` in consecutive runs of at most
/// `batch` pages each, all full but possibly the last.
pub open spec fn well_formed_batches(chunks: Seq<(u32, u32)>, pages: u32, batch: u32) -> bool {
    &&& (pages == 0 <==> chunks.len() == 0)
    &&& (chunks.len() > 0 ==> chunks.first().0 == 1 && chunks.last().1 == pages)
    &&& (forall|k: int| 0 <= k < chunks.len() ==> chunks[k].0 <= chunks[k].1)
    &&& (forall|k: int| 0 <= k < chunks.len() - 1 ==> chunks[k + 1].0 == chunks[k].1 + 1)
    &&& (forall|k: int| 0 <= k < chunks.len() - 1 ==> chunks[k].1 - chunks[k].0 + 1 == batch)
    &&& (chunks.len() > 0 ==> chunks.last().1 - chunks.last().0 + 1 <= batch)
}

/// Partition the 1-based page range into consecutive chunks of at most
/// `batch` pages: the bounded fan-out units of a scrape run.
pub fn plan_batches(pages: u32, batch: u32) -> (r: Vec<(u32, u32)>)
    requires
        batch >= 1,
    ensures
        well_formed_batches(r@, pages, batch),
{
    let mut out: Vec<(u32, u32)> = Vec::new();
    let mut next: u64 = 1;
    let pages64: u64 = pages as u64;
    let batch64: u64 = batch as u64;
    while next <= pages64
        invariant
            batch64 == batch,
            pages64 == pages,
            batch >= 1,
            1 <= next <= pages64 + 1,
            out@.len() == 0 <==> next == 1,
            out@.len() > 0 ==> out@.first().0 == 1 && out@.last().1 + 1 == next,
            forall|k: int| 0 <= k < out@.len() ==> out@[k].0 <= out@[k].1 && out@[k].1 <= pages,
            forall|k: int| 0 <= k < out@.len() - 1 ==> out@[k + 1].0 == out@[k].1 + 1,
            forall|k: int| 0 <= k < out@.len() - 1 ==> out@[k].1 - out@[k].0 + 1 == batch,
            out@.len() > 0 ==> out@.last().1 - out@.last().0 + 1 <= batch,
            next <= pages64 && out@.len() > 0 ==> out@.last().1 - out@.last().0 + 1 == batch,
        decreases pages64 + 1 - next,
    {
        let end: u64 = if pages64 - next >= batch64 {
            next + batch64 - 1
        } else {
            pages64
        };
        out.push((next as u32, end as u32));
        next = end + 1;
    }
    out
}


/// The final ordering is ascending by rank key, with one output row per
/// input row, each of them an input row: the run's ordering guarantee.
pub proof fn lemma_sorted_rows_props(rows: Seq<CoinRow>)
    ensures
        sorted_rows(rows).len() == rows.len(),
        forall|i: int, j: int|
            0 <= i < j < sorted_rows(rows).len() ==> rank_key(sorted_rows(rows)[i]) <= rank_key(
                sorted_rows(rows)[j],
            ),
        forall|k: int| 0 <= k < sorted_rows(rows).len() ==> rows.contains(
            #[trigger] sorted_rows(rows)[k],
        ),
{
    let pairs = rows_pairs(rows);
    let sorted = sort_pairs(pairs);
    crate::sorting::lemma_sort_pairs_props(pairs);
    assert forall|k: int|
        0 <= k < sorted.len() implies rank_key(#[trigger] sorted[k].1) == sorted[k].0 by {
        crate::sorting::lemma_sort_pairs_membership(pairs, k);
        let w = choose|w: int| 0 <= w < pairs.len() && pairs[w] == sorted[k];
        assert(pairs[w] == to_rank_pair(rows[w]));
    }
    assert forall|i: int, j: int|
        0 <= i < j < sorted_rows(rows).len() implies rank_key(sorted_rows(rows)[i]) <= rank_key(
        sorted_rows(rows)[j],
    ) by {
        assert(sorted_rows(rows)[i] == sorted[i].1);
        assert(sorted_rows(rows)[j] == sorted[j].1);
        assert(sorted[i].0 <= sorted[j].0);
    }
    assert forall|k: int|
        0 <= k < sorted_rows(rows).len() implies rows.contains(
        #[trigger] sorted_rows(rows)[k],
    ) by {
        crate::sorting::lemma_sort_pairs_membership(pairs, k);
        let w = choose|w: int| 0 <= w < pairs.len() && pairs[w] == sorted[k];
        assert(pairs[w] == to_rank_pair(rows[w]));
        assert(sorted_rows(rows)[k] == sorted[k].1);
        assert(rows[w] == sorted_rows(rows)[k]);
    }
}

} // verus!
