//! The append-only time-series store: coin identities created on first
//! sight and never updated, snapshots appended once per (coin, pass), and
//! the two "latest" readings — the globally latest coherent pass for the
//! ranked listing, and the per-coin latest snapshot for single lookups.
use vstd::prelude::*;

use crate::fetch::contains_id;
use crate::model::{Coin, CoinResponse, CoinRow, CoinSummary, HistoryPoint, Snapshot};
use crate::sorting::{sort_by_first, sort_pairs};
use crate::strings::{to_ascii_upper, upper_seq};

verus! {

/// The coin identity a first-seen observation creates.
pub open spec fn coin_of(row: CoinRow) -> Coin {
    Coin { id: row.id, name: row.name, symbol: row.symbol }
}

/// The snapshot one observation persists.
pub open spec fn snap_of(row: CoinRow) -> Snapshot {
    Snapshot {
        coin_id: row.id,
        ts_utc: row.scraped_at,
        rank: row.rank,
        price_usd: row.price_usd,
        market_cap_usd: row.market_cap_usd,
        change_24h: row.chg24h_pct,
    }
}

/// Whether some stored coin carries this id.
pub open spec fn coins_contain_id(coins: Seq<Coin>, id: u64) -> bool {
    exists|k: int| 0 <= k < coins.len() && coins[k].id == id
}

/// No two stored coins share an id.
pub open spec fn unique_coin_ids(coins: Seq<Coin>) -> bool {
    forall|i: int, j: int| 0 <= i < j < coins.len() ==> coins[i].id != coins[j].id
}

/// The coin table after an insert-if-absent pass over the observations, in
/// order: an id already present leaves its row untouched.
pub open spec fn upsert_coins(coins: Seq<Coin>, rows: Seq<CoinRow>) -> Seq<Coin>
    decreases rows.len(),
{
    if rows.len() == 0 {
        coins
    } else {
        let c = upsert_coins(coins, rows.drop_last());
        if coins_contain_id(c, rows.last().id) {
            c
        } else {
            c.push(coin_of(rows.last()))
        }
    }
}

/// The snapshots one batch appends, in batch order.
pub open spec fn snaps_of_rows(rows: Seq<CoinRow>) -> Seq<Snapshot>
    decreases rows.len(),
{
    if rows.len() == 0 {
        Seq::empty()
    } else {
        snaps_of_rows(rows.drop_last()).push(snap_of(rows.last()))
    }
}

/// The first stored coin with this id.
pub open spec fn find_coin(coins: Seq<Coin>, id: u64) -> Option<Coin>
    decreases coins.len(),
{
    if coins.len() == 0 {
        None
    } else if coins.first().id == id {
        Some(coins.first())
    } else {
        find_coin(coins.drop_first(), id)
    }
}

/// The first stored coin whose upper-cased symbol is `symu`.
pub open spec fn find_coin_by_symbol(coins: Seq<Coin>, symu: Seq<char>) -> Option<Coin>
    decreases coins.len(),
{
    if coins.len() == 0 {
        None
    } else if upper_seq(coins.first().symbol@) == symu {
        Some(coins.first())
    } else {
        find_coin_by_symbol(coins.drop_first(), symu)
    }
}

/// The greatest `observed_at` over the snapshots; zero on an empty table,
/// where no snapshot can match it anyway.
pub open spec fn max_ts(snaps: Seq<Snapshot>) -> u64
    decreases snaps.len(),
{
    if snaps.len() == 0 {
        0
    } else {
        let m = max_ts(snaps.drop_last());
        if snaps.last().ts_utc > m {
            snaps.last().ts_utc
        } else {
            m
        }
    }
}

/// The snapshots of the globally latest pass that carry a rank, keyed by it,
/// in table order.
pub open spec fn ranked_latest_pairs(snaps: Seq<Snapshot>, m: u64) -> Seq<(u64, Snapshot)>
    decreases snaps.len(),
{
    if snaps.len() == 0 {
        Seq::empty()
    } else {
        let front = ranked_latest_pairs(snaps.drop_last(), m);
        if snaps.last().ts_utc == m && snaps.last().rank is Some {
            front.push((snaps.last().rank->0, snaps.last()))
        } else {
            front
        }
    }
}

/// The ranked listing as of the globally latest pass: null-rank rows
/// excluded, ascending rank (table order among ties), capped at `limit`.
pub open spec fn spec_latest_ranked(snaps: Seq<Snapshot>, limit: int) -> Seq<(u64, Snapshot)> {
    let sorted = sort_pairs(ranked_latest_pairs(snaps, max_ts(snaps)));
    sorted.take(
        if limit <= sorted.len() {
            limit
        } else {
            sorted.len() as int
        },
    )
}

/// One coin's snapshots keyed by their timestamp, in table order.
pub open spec fn coin_ts_pairs(snaps: Seq<Snapshot>, id: u64) -> Seq<(u64, Snapshot)>
    decreases snaps.len(),
{
    if snaps.len() == 0 {
        Seq::empty()
    } else {
        let front = coin_ts_pairs(snaps.drop_last(), id);
        if snaps.last().coin_id == id {
            front.push((snaps.last().ts_utc, snaps.last()))
        } else {
            front
        }
    }
}

/// The first of the keyed snapshots carrying timestamp `ts`.
pub open spec fn first_pair_at(pairs: Seq<(u64, Snapshot)>, ts: u64) -> Option<Snapshot>
    decreases pairs.len(),
{
    if pairs.len() == 0 {
        None
    } else if pairs.first().0 == ts {
        Some(pairs.first().1)
    } else {
        first_pair_at(pairs.drop_first(), ts)
    }
}

/// The greatest key among keyed snapshots; zero where there are none.
pub open spec fn max_key(pairs: Seq<(u64, Snapshot)>) -> u64
    decreases pairs.len(),
{
    if pairs.len() == 0 {
        0
    } else {
        let m = max_key(pairs.drop_last());
        if pairs.last().0 > m {
            pairs.last().0
        } else {
            m
        }
    }
}

/// A listing row joined from a coin and one of its snapshots.
pub open spec fn summary_of(c: Coin, s: Snapshot) -> CoinSummary {
    CoinSummary {
        name: c.name,
        symbol: c.symbol,
        rank: s.rank,
        price_usd: s.price_usd,
        market_cap_usd: s.market_cap_usd,
        change_24h: s.change_24h,
    }
}

/// An API record joined from a coin and one of its snapshots.
pub open spec fn response_of(c: Coin, s: Snapshot) -> CoinResponse {
    CoinResponse {
        id: c.id,
        symbol: c.symbol,
        name: c.name,
        rank: s.rank,
        price_usd: s.price_usd,
        market_cap_usd: s.market_cap_usd,
        change_24h: s.change_24h,
        ts_utc: s.ts_utc,
    }
}

/// The history point one snapshot projects to.
pub open spec fn point_of(s: Snapshot) -> HistoryPoint {
    HistoryPoint {
        timestamp: s.ts_utc,
        price_usd: s.price_usd,
        market_cap_usd: s.market_cap_usd,
    }
}

/// Keyed snapshots joined with their coins into listing rows.
pub open spec fn summaries_of(coins: Seq<Coin>, pairs: Seq<(u64, Snapshot)>) -> Seq<CoinSummary>
    decreases pairs.len(),
{
    if pairs.len() == 0 {
        Seq::empty()
    } else {
        summaries_of(coins, pairs.drop_last()).push(
            summary_of(find_coin(coins, pairs.last().1.coin_id)->0, pairs.last().1),
        )
    }
}

/// Keyed snapshots joined with their coins into API records.
pub open spec fn responses_of(coins: Seq<Coin>, pairs: Seq<(u64, Snapshot)>) -> Seq<CoinResponse>
    decreases pairs.len(),
{
    if pairs.len() == 0 {
        Seq::empty()
    } else {
        responses_of(coins, pairs.drop_last()).push(
            response_of(find_coin(coins, pairs.last().1.coin_id)->0, pairs.last().1),
        )
    }
}

/// Keyed snapshots projected to history points.
pub open spec fn points_of(pairs: Seq<(u64, Snapshot)>) -> Seq<HistoryPoint>
    decreases pairs.len(),
{
    if pairs.len() == 0 {
        Seq::empty()
    } else {
        points_of(pairs.drop_last()).push(point_of(pairs.last().1))
    }
}

/// The single record `latest(symbol)` answers: the first coin whose symbol
/// matches case-insensitively, at that coin's own greatest `observed_at`.
pub open spec fn spec_latest(coins: Seq<Coin>, snaps: Seq<Snapshot>, sym: Seq<char>) -> Option<
    CoinResponse,
> {
    match find_coin_by_symbol(coins, upper_seq(sym)) {
        None => None,
        Some(c) => {
            let cs = coin_ts_pairs(snaps, c.id);
            match first_pair_at(cs, max_key(cs)) {
                None => None,
                Some(s) => Some(response_of(c, s)),
            }
        },
    }
}

/// The series `history(symbol)` answers: all of the matching coin's
/// snapshots, oldest first, table order among equal timestamps.
pub open spec fn spec_history(coins: Seq<Coin>, snaps: Seq<Snapshot>, sym: Seq<char>) -> Seq<
    HistoryPoint,
> {
    match find_coin_by_symbol(coins, upper_seq(sym)) {
        None => Seq::empty(),
        Some(c) => points_of(sort_pairs(coin_ts_pairs(snaps, c.id))),
    }
}

/// The store: a coin dimension and an append-only snapshot table.
pub struct Database {
    coins: Vec<Coin>,
    snapshots: Vec<Snapshot>,
}

impl Database {
    /// The stored coins, in insertion order.
    pub closed spec fn coins_view(&self) -> Seq<Coin> {
        self.coins@
    }

    /// The stored snapshots, in insertion order.
    pub closed spec fn snaps_view(&self) -> Seq<Snapshot> {
        self.snapshots@
    }

    /// Well-formedness: coin ids are unique and every snapshot points at a
    /// stored coin.
    pub open spec fn wf(&self) -> bool {
        &&& unique_coin_ids(self.coins_view())
        &&& forall|k: int|
            0 <= k < self.snaps_view().len() ==> coins_contain_id(
                self.coins_view(),
                self.snaps_view()[k].coin_id,
            )
    }

    /// An empty store, schema in place.
    pub fn new() -> (r: Database)
        ensures
            r.wf(),
            r.coins_view() == Seq::<Coin>::empty(),
            r.snaps_view() == Seq::<Snapshot>::empty(),
    {
        let r = Database { coins: Vec::new(), snapshots: Vec::new() };
        proof {
            assert(r.coins_view() =~= Seq::<Coin>::empty());
            assert(r.snaps_view() =~= Seq::<Snapshot>::empty());
        }
        r
    }

    /// Ingest one pass: per observation, insert the coin if its id is new
    /// (never updating an existing row) and append one snapshot. All-or-
    /// nothing against this in-memory state, as a transaction would be.
    pub fn save_coins(&mut self, coins: &Vec<CoinRow>)
        requires
            old(self).wf(),
        ensures
            final(self).wf(),
            final(self).coins_view() == upsert_coins(old(self).coins_view(), coins@),
            final(self).snaps_view() == old(self).snaps_view() + snaps_of_rows(coins@),
    {
        let ghost coins0 = self.coins_view();
        let ghost snaps0 = self.snaps_view();
        let mut i: usize = 0;
        proof {
            assert(coins@.take(0) =~= Seq::<CoinRow>::empty());
            assert(snaps0 + snaps_of_rows(coins@.take(0)) =~= snaps0);
        }
        while i < coins.len()
            invariant
                i <= coins@.len(),
                self.wf(),
                self.coins_view() == upsert_coins(coins0, coins@.take(i as int)),
                self.snaps_view() == snaps0 + snaps_of_rows(coins@.take(i as int)),
            decreases coins@.len() - i,
        {
            proof {
                assert(coins@.take(i as int + 1).drop_last() =~= coins@.take(i as int));
                assert(coins@.take(i as int + 1).last() == coins@[i as int]);
            }
            let ghost prev_coins = self.coins_view();
            let ghost prev_snaps = self.snaps_view();
            let row = coins[i].clone();
            proof {
                assert(row == coins@[i as int]);
            }
            if !has_coin_id(&self.coins, row.id) {
                let c = Coin { id: row.id, name: row.name.clone(), symbol: row.symbol.clone() };
                proof {
                    assert(c == coin_of(coins@[i as int]));
                }
                self.coins.push(c);
                proof {
                    assert(unique_coin_ids(self.coins_view())) by {
                        assert forall|a: int, b: int|
                            0 <= a < b < self.coins_view().len() implies self.coins_view()[a].id
                            != self.coins_view()[b].id by {
                            if b == self.coins_view().len() - 1 {
                                assert(self.coins_view()[a] == prev_coins[a]);
                                if prev_coins[a].id == row.id {
                                    assert(coins_contain_id(prev_coins, row.id));
                                }
                            } else {
                                assert(self.coins_view()[a] == prev_coins[a]);
                                assert(self.coins_view()[b] == prev_coins[b]);
                            }
                        }
                    }
                }
            }
            let ghost cur_coins = self.coins_view();
            proof {
                assert forall|x: u64| coins_contain_id(prev_coins, x) implies coins_contain_id(
                    cur_coins,
                    x,
                ) by {
                    let w = choose|w: int| 0 <= w < prev_coins.len() && prev_coins[w].id == x;
                    assert(cur_coins[w].id == x);
                }
                assert(coins_contain_id(cur_coins, row.id)) by {
                    if !coins_contain_id(prev_coins, row.id) {
                        assert(cur_coins[cur_coins.len() - 1].id == row.id);
                    }
                }
            }
            let s = Snapshot {
                coin_id: row.id,
                ts_utc: row.scraped_at,
                rank: row.rank,
                price_usd: row.price_usd,
                market_cap_usd: row.market_cap_usd,
                change_24h: row.chg24h_pct,
            };
            proof {
                assert(s == snap_of(coins@[i as int]));
                assert((snaps0 + snaps_of_rows(coins@.take(i as int))).push(s) =~= snaps0
                    + snaps_of_rows(coins@.take(i as int + 1)));
            }
            self.snapshots.push(s);
            proof {
                assert forall|k: int|
                    0 <= k < self.snaps_view().len() implies coins_contain_id(
                    cur_coins,
                    self.snaps_view()[k].coin_id,
                ) by {
                    if k < self.snaps_view().len() - 1 {
                        assert(self.snaps_view()[k] == prev_snaps[k]);
                    }
                }
            }
            i = i + 1;
        }
        proof {
            assert(coins@.take(coins@.len() as int) =~= coins@);
        }
    }

    /// Total snapshot rows, for diagnostics.
    pub fn get_snapshot_count(&self) -> (r: usize)
        ensures
            r == self.snaps_view().len(),
    {
        self.snapshots.len()
    }
}

fn has_coin_id(coins: &Vec<Coin>, id: u64) -> (r: bool)
    ensures
        r == coins_contain_id(coins@, id),
{
    let mut i: usize = 0;
    while i < coins.len()
        invariant
            i <= coins@.len(),
            forall|k: int| 0 <= k < i ==> coins@[k].id != id,
        decreases coins@.len() - i,
    {
        if coins[i].id == id {
            return true;
        }
        i = i + 1;
    }
    false
}

/// A coin id is found exactly when some stored coin carries it, and the row
/// found carries that id.
pub proof fn lemma_find_coin_some(coins: Seq<Coin>, id: u64)
    ensures
        coins_contain_id(coins, id) <==> find_coin(coins, id) is Some,
        find_coin(coins, id) is Some ==> find_coin(coins, id)->0.id == id,
    decreases coins.len(),
{
    if coins.len() == 0 {
    } else if coins.first().id == id {
        assert(coins[0].id == id);
    } else {
        lemma_find_coin_some(coins.drop_first(), id);
        if coins_contain_id(coins, id) {
            let k = choose|k: int| 0 <= k < coins.len() && coins[k].id == id;
            assert(coins.drop_first()[k - 1].id == id);
        }
        if coins_contain_id(coins.drop_first(), id) {
            let k = choose|k: int|
                0 <= k < coins.drop_first().len() && coins.drop_first()[k].id == id;
            assert(coins[k + 1].id == id);
        }
    }
}

/// Every keyed row of the latest ranked selection is a stored snapshot of
/// the globally latest pass, carries a rank, and is keyed by it.
pub proof fn lemma_ranked_latest_pairs_elems(snaps: Seq<Snapshot>, m: u64)
    ensures
        forall|k: int|
            0 <= k < ranked_latest_pairs(snaps, m).len() ==> snaps.contains(
                #[trigger] ranked_latest_pairs(snaps, m)[k].1,
            ) && ranked_latest_pairs(snaps, m)[k].1.ts_utc == m && ranked_latest_pairs(
                snaps,
                m,
            )[k].1.rank is Some && ranked_latest_pairs(snaps, m)[k].0 == ranked_latest_pairs(
                snaps,
                m,
            )[k].1.rank->0,
    decreases snaps.len(),
{
    if snaps.len() == 0 {
    } else {
        let dl = snaps.drop_last();
        lemma_ranked_latest_pairs_elems(dl, m);
        assert forall|k: int|
            0 <= k < ranked_latest_pairs(snaps, m).len() implies snaps.contains(
            #[trigger] ranked_latest_pairs(snaps, m)[k].1,
        ) && ranked_latest_pairs(snaps, m)[k].1.ts_utc == m && ranked_latest_pairs(
            snaps,
            m,
        )[k].1.rank is Some && ranked_latest_pairs(snaps, m)[k].0 == ranked_latest_pairs(
            snaps,
            m,
        )[k].1.rank->0 by {
            let whole = ranked_latest_pairs(snaps, m);
            if k < ranked_latest_pairs(dl, m).len() {
                assert(whole[k] == ranked_latest_pairs(dl, m)[k]);
                assert(dl.contains(ranked_latest_pairs(dl, m)[k].1));
                let w = choose|w: int|
                    0 <= w < dl.len() && dl[w] == ranked_latest_pairs(dl, m)[k].1;
                assert(snaps[w] == whole[k].1);
            } else {
                assert(whole[k].1 == snaps[snaps.len() - 1]);
            }
        }
    }
}

/// Every keyed row of one coin's selection is a stored snapshot of that
/// coin, keyed by its timestamp.
pub proof fn lemma_coin_ts_pairs_elems(snaps: Seq<Snapshot>, id: u64)
    ensures
        forall|k: int|
            0 <= k < coin_ts_pairs(snaps, id).len() ==> snaps.contains(
                #[trigger] coin_ts_pairs(snaps, id)[k].1,
            ) && coin_ts_pairs(snaps, id)[k].1.coin_id == id && coin_ts_pairs(snaps, id)[k].0
                == coin_ts_pairs(snaps, id)[k].1.ts_utc,
    decreases snaps.len(),
{
    if snaps.len() == 0 {
    } else {
        let dl = snaps.drop_last();
        lemma_coin_ts_pairs_elems(dl, id);
        assert forall|k: int|
            0 <= k < coin_ts_pairs(snaps, id).len() implies snaps.contains(
            #[trigger] coin_ts_pairs(snaps, id)[k].1,
        ) && coin_ts_pairs(snaps, id)[k].1.coin_id == id && coin_ts_pairs(snaps, id)[k].0
            == coin_ts_pairs(snaps, id)[k].1.ts_utc by {
            let whole = coin_ts_pairs(snaps, id);
            if k < coin_ts_pairs(dl, id).len() {
                assert(whole[k] == coin_ts_pairs(dl, id)[k]);
                assert(dl.contains(coin_ts_pairs(dl, id)[k].1));
                let w = choose|w: int| 0 <= w < dl.len() && dl[w] == coin_ts_pairs(dl, id)[k].1;
                assert(snaps[w] == whole[k].1);
            } else {
                assert(whole[k].1 == snaps[snaps.len() - 1]);
            }
        }
    }
}

fn max_ts_of(snaps: &Vec<Snapshot>) -> (r: u64)
    ensures
        r == max_ts(snaps@),
{
    let mut m: u64 = 0;
    let mut i: usize = 0;
    proof {
        assert(snaps@.take(0) =~= Seq::<Snapshot>::empty());
    }
    while i < snaps.len()
        invariant
            i <= snaps@.len(),
            m == max_ts(snaps@.take(i as int)),
        decreases snaps@.len() - i,
    {
        proof {
            assert(snaps@.take(i as int + 1).drop_last() =~= snaps@.take(i as int));
            assert(snaps@.take(i as int + 1).last() == snaps@[i as int]);
        }
        if snaps[i].ts_utc > m {
            m = snaps[i].ts_utc;
        }
        i = i + 1;
    }
    proof {
        assert(snaps@.take(snaps@.len() as int) =~= snaps@);
    }
    m
}

fn max_key_of(pairs: &Vec<(u64, Snapshot)>) -> (r: u64)
    ensures
        r == max_key(pairs@),
{
    let mut m: u64 = 0;
    let mut i: usize = 0;
    proof {
        assert(pairs@.take(0) =~= Seq::<(u64, Snapshot)>::empty());
    }
    while i < pairs.len()
        invariant
            i <= pairs@.len(),
            m == max_key(pairs@.take(i as int)),
        decreases pairs@.len() - i,
    {
        proof {
            assert(pairs@.take(i as int + 1).drop_last() =~= pairs@.take(i as int));
            assert(pairs@.take(i as int + 1).last() == pairs@[i as int]);
        }
        if pairs[i].0 > m {
            m = pairs[i].0;
        }
        i = i + 1;
    }
    proof {
        assert(pairs@.take(pairs@.len() as int) =~= pairs@);
    }
    m
}

fn find_coin_exec<'a>(coins: &'a Vec<Coin>, id: u64) -> (r: Option<&'a Coin>)
    ensures
        match r {
            Some(c) => find_coin(coins@, id) == Some(*c),
            None => find_coin(coins@, id) is None,
        },
{
    let mut i: usize = 0;
    proof {
        assert(coins@.skip(0) =~= coins@);
    }
    while i < coins.len()
        invariant
            i <= coins@.len(),
            find_coin(coins@, id) == find_coin(coins@.skip(i as int), id),
        decreases coins@.len() - i,
    {
        proof {
            assert(coins@.skip(i as int).first() == coins@[i as int]);
            assert(coins@.skip(i as int).drop_first() =~= coins@.skip(i as int + 1));
        }
        if coins[i].id == id {
            return Some(&coins[i]);
        }
        i = i + 1;
    }
    proof {
        assert(coins@.skip(coins@.len() as int) =~= Seq::<Coin>::empty());
    }
    None
}

fn find_by_symbol_exec<'a>(coins: &'a Vec<Coin>, symu: &String) -> (r: Option<&'a Coin>)
    ensures
        match r {
            Some(c) => find_coin_by_symbol(coins@, symu@) == Some(*c),
            None => find_coin_by_symbol(coins@, symu@) is None,
        },
{
    let mut i: usize = 0;
    proof {
        assert(coins@.skip(0) =~= coins@);
    }
    while i < coins.len()
        invariant
            i <= coins@.len(),
            find_coin_by_symbol(coins@, symu@) == find_coin_by_symbol(
                coins@.skip(i as int),
                symu@,
            ),
        decreases coins@.len() - i,
    {
        proof {
            assert(coins@.skip(i as int).first() == coins@[i as int]);
            assert(coins@.skip(i as int).drop_first() =~= coins@.skip(i as int + 1));
        }
        let up = to_ascii_upper(coins[i].symbol.as_str());
        if up.eq(symu) {
            return Some(&coins[i]);
        }
        i = i + 1;
    }
    proof {
        assert(coins@.skip(coins@.len() as int) =~= Seq::<Coin>::empty());
    }
    None
}

fn coin_pairs_exec(snaps: &Vec<Snapshot>, id: u64) -> (r: Vec<(u64, Snapshot)>)
    ensures
        r@ == coin_ts_pairs(snaps@, id),
{
    let mut out: Vec<(u64, Snapshot)> = Vec::new();
    let mut i: usize = 0;
    proof {
        assert(snaps@.take(0) =~= Seq::<Snapshot>::empty());
    }
    while i < snaps.len()
        invariant
            i <= snaps@.len(),
            out@ == coin_ts_pairs(snaps@.take(i as int), id),
        decreases snaps@.len() - i,
    {
        proof {
            assert(snaps@.take(i as int + 1).drop_last() =~= snaps@.take(i as int));
            assert(snaps@.take(i as int + 1).last() == snaps@[i as int]);
        }
        if snaps[i].coin_id == id {
            out.push((snaps[i].ts_utc, snaps[i].clone()));
        }
        i = i + 1;
    }
    proof {
        assert(snaps@.take(snaps@.len() as int) =~= snaps@);
    }
    out
}

impl Database {
    /// The latest ranked selection, sorted by rank and capped, with every
    /// row's coin known to be stored.
    fn latest_pairs_limited(&self, limit: usize) -> (r: Vec<(u64, Snapshot)>)
        requires
            self.wf(),
        ensures
            r@ == spec_latest_ranked(self.snaps_view(), limit as int),
            forall|k: int|
                0 <= k < r@.len() ==> coins_contain_id(self.coins_view(), r@[k].1.coin_id),
    {
        let snaps = &self.snapshots;
        let m = max_ts_of(snaps);
        let mut pairs: Vec<(u64, Snapshot)> = Vec::new();
        let mut i: usize = 0;
        proof {
            assert(snaps@.take(0) =~= Seq::<Snapshot>::empty());
        }
        while i < snaps.len()
            invariant
                i <= snaps@.len(),
                m == max_ts(snaps@),
                pairs@ == ranked_latest_pairs(snaps@.take(i as int), m),
            decreases snaps@.len() - i,
        {
            proof {
                assert(snaps@.take(i as int + 1).drop_last() =~= snaps@.take(i as int));
                assert(snaps@.take(i as int + 1).last() == snaps@[i as int]);
            }
            if snaps[i].ts_utc == m {
                match snaps[i].rank {
                    Some(rk) => {
                        pairs.push((rk, snaps[i].clone()));
                    },
                    None => {},
                }
            }
            i = i + 1;
        }
        proof {
            assert(snaps@.take(snaps@.len() as int) =~= snaps@);
        }
        let sorted = sort_by_first(pairs);
        let ghost ssorted = sort_pairs(ranked_latest_pairs(self.snaps_view(), m));
        let n = if limit <= sorted.len() {
            limit
        } else {
            sorted.len()
        };
        let mut out: Vec<(u64, Snapshot)> = Vec::new();
        let mut k: usize = 0;
        proof {
            assert(ssorted.take(0) =~= Seq::<(u64, Snapshot)>::empty());
        }
        while k < n
            invariant
                k <= n,
                n <= sorted@.len(),
                sorted@ == ssorted,
                out@ == ssorted.take(k as int),
            decreases n - k,
        {
            out.push((sorted[k].0, sorted[k].1.clone()));
            proof {
                assert(ssorted.take(k as int + 1) =~= ssorted.take(k as int).push(
                    ssorted[k as int],
                ));
            }
            k = k + 1;
        }
        proof {
            assert(out@ == spec_latest_ranked(self.snaps_view(), limit as int));
            lemma_ranked_latest_pairs_elems(self.snaps_view(), m);
            assert forall|k: int|
                0 <= k < out@.len() implies coins_contain_id(
                self.coins_view(),
                out@[k].1.coin_id,
            ) by {
                crate::sorting::lemma_sort_pairs_membership(
                    ranked_latest_pairs(self.snaps_view(), m),
                    k,
                );
                let p = out@[k];
                let w = choose|w: int|
                    0 <= w < ranked_latest_pairs(self.snaps_view(), m).len()
                        && ranked_latest_pairs(self.snaps_view(), m)[w] == p;
                let s = ranked_latest_pairs(self.snaps_view(), m)[w].1;
                let q = choose|q: int|
                    0 <= q < self.snaps_view().len() && self.snaps_view()[q] == s;
                assert(coins_contain_id(self.coins_view(), self.snaps_view()[q].coin_id));
            }
        }
        out
    }

    /// The ranked listing of the globally latest pass: null-rank rows
    /// excluded, ascending rank, at most `limit` rows.
    pub fn get_latest_coins(&self, limit: usize) -> (r: Vec<CoinSummary>)
        requires
            self.wf(),
        ensures
            r@ == summaries_of(
                self.coins_view(),
                spec_latest_ranked(self.snaps_view(), limit as int),
            ),
    {
        let pairs = self.latest_pairs_limited(limit);
        let ghost pspec = pairs@;
        let mut rest = pairs;
        let mut out: Vec<CoinSummary> = Vec::new();
        let ghost mut j: int = 0;
        proof {
            assert(pspec.take(0) =~= Seq::<(u64, Snapshot)>::empty());
            assert(pspec.skip(0) =~= pspec);
        }
        while rest.len() > 0
            invariant
                0 <= j <= pspec.len(),
                rest@ == pspec.skip(j),
                out@ == summaries_of(self.coins_view(), pspec.take(j)),
                self.wf(),
                forall|k: int|
                    0 <= k < pspec.len() ==> coins_contain_id(
                        self.coins_view(),
                        pspec[k].1.coin_id,
                    ),
            decreases rest@.len(),
        {
            let p = rest.remove(0);
            proof {
                assert(p == pspec[j]);
                assert(rest@ =~= pspec.skip(j + 1));
                lemma_find_coin_some(self.coins_view(), p.1.coin_id);
                assert(pspec.take(j + 1).drop_last() =~= pspec.take(j));
                assert(pspec.take(j + 1).last() == pspec[j]);
            }
            let c = match find_coin_exec(&self.coins, p.1.coin_id) {
                Some(c) => c,
                None => {
                    return out;  // unreachable: the coin is stored
                },
            };
            let s = p.1;
            out.push(
                CoinSummary {
                    name: c.name.clone(),
                    symbol: c.symbol.clone(),
                    rank: s.rank,
                    price_usd: s.price_usd,
                    market_cap_usd: s.market_cap_usd,
                    change_24h: s.change_24h,
                },
            );
            proof {
                j = j + 1;
            }
        }
        proof {
            assert(pspec.take(pspec.len() as int) =~= pspec);
        }
        out
    }

    /// The ranked listing with coin ids and the pass timestamp, as the read
    /// API serves it.
    pub fn get_latest_coins_api(&self, limit: usize) -> (r: Vec<CoinResponse>)
        requires
            self.wf(),
        ensures
            r@ == responses_of(
                self.coins_view(),
                spec_latest_ranked(self.snaps_view(), limit as int),
            ),
    {
        let pairs = self.latest_pairs_limited(limit);
        let ghost pspec = pairs@;
        let mut rest = pairs;
        let mut out: Vec<CoinResponse> = Vec::new();
        let ghost mut j: int = 0;
        proof {
            assert(pspec.take(0) =~= Seq::<(u64, Snapshot)>::empty());
            assert(pspec.skip(0) =~= pspec);
        }
        while rest.len() > 0
            invariant
                0 <= j <= pspec.len(),
                rest@ == pspec.skip(j),
                out@ == responses_of(self.coins_view(), pspec.take(j)),
                self.wf(),
                forall|k: int|
                    0 <= k < pspec.len() ==> coins_contain_id(
                        self.coins_view(),
                        pspec[k].1.coin_id,
                    ),
            decreases rest@.len(),
        {
            let p = rest.remove(0);
            proof {
                assert(p == pspec[j]);
                assert(rest@ =~= pspec.skip(j + 1));
                lemma_find_coin_some(self.coins_view(), p.1.coin_id);
                assert(pspec.take(j + 1).drop_last() =~= pspec.take(j));
                assert(pspec.take(j + 1).last() == pspec[j]);
            }
            let c = match find_coin_exec(&self.coins, p.1.coin_id) {
                Some(c) => c,
                None => {
                    return out;  // unreachable: the coin is stored
                },
            };
            let s = p.1;
            out.push(
                CoinResponse {
                    id: c.id,
                    symbol: c.symbol.clone(),
                    name: c.name.clone(),
                    rank: s.rank,
                    price_usd: s.price_usd,
                    market_cap_usd: s.market_cap_usd,
                    change_24h: s.change_24h,
                    ts_utc: s.ts_utc,
                },
            );
            proof {
                j = j + 1;
            }
        }
        proof {
            assert(pspec.take(pspec.len() as int) =~= pspec);
        }
        out
    }

    /// The single latest record for a symbol, case-insensitively: the
    /// matching coin's snapshot at its own greatest `observed_at`, whether or
    /// not the coin appeared in the latest pass. `None` for an unknown
    /// symbol or one with no history.
    pub fn get_coin_latest_api(&self, symbol: &str) -> (r: Option<CoinResponse>)
        requires
            self.wf(),
        ensures
            r == spec_latest(self.coins_view(), self.snaps_view(), symbol@),
    {
        let symu = to_ascii_upper(symbol);
        let c = match find_by_symbol_exec(&self.coins, &symu) {
            Some(c) => c,
            None => {
                return None;
            },
        };
        let cs = coin_pairs_exec(&self.snapshots, c.id);
        let m = max_key_of(&cs);
        let mut i: usize = 0;
        proof {
            assert(cs@.skip(0) =~= cs@);
        }
        while i < cs.len()
            invariant
                i <= cs@.len(),
                find_coin_by_symbol(self.coins_view(), upper_seq(symbol@)) == Some(*c),
                cs@ == coin_ts_pairs(self.snaps_view(), c.id),
                m == max_key(cs@),
                first_pair_at(cs@, m) == first_pair_at(cs@.skip(i as int), m),
            decreases cs@.len() - i,
        {
            proof {
                assert(cs@.skip(i as int).first() == cs@[i as int]);
                assert(cs@.skip(i as int).drop_first() =~= cs@.skip(i as int + 1));
            }
            if cs[i].0 == m {
                proof {
                    assert(first_pair_at(cs@.skip(i as int), m) == Some(cs@[i as int].1));
                }
                let s = cs[i].1.clone();
                return Some(
                    CoinResponse {
                        id: c.id,
                        symbol: c.symbol.clone(),
                        name: c.name.clone(),
                        rank: s.rank,
                        price_usd: s.price_usd,
                        market_cap_usd: s.market_cap_usd,
                        change_24h: s.change_24h,
                        ts_utc: s.ts_utc,
                    },
                );
            }
            i = i + 1;
        }
        proof {
            assert(cs@.skip(cs@.len() as int) =~= Seq::<(u64, Snapshot)>::empty());
        }
        None
    }

    /// All snapshots of the symbol's coin, oldest first; empty for an
    /// unknown symbol.
    pub fn get_coin_history(&self, symbol: &str) -> (r: Vec<HistoryPoint>)
        requires
            self.wf(),
        ensures
            r@ == spec_history(self.coins_view(), self.snaps_view(), symbol@),
    {
        let symu = to_ascii_upper(symbol);
        let c = match find_by_symbol_exec(&self.coins, &symu) {
            Some(c) => c,
            None => {
                let out: Vec<HistoryPoint> = Vec::new();
                proof {
                    assert(out@ =~= Seq::<HistoryPoint>::empty());
                }
                return out;
            },
        };
        let cs = coin_pairs_exec(&self.snapshots, c.id);
        let sorted = sort_by_first(cs);
        let ghost ssorted = sort_pairs(coin_ts_pairs(self.snaps_view(), c.id));
        let mut rest = sorted;
        let mut out: Vec<HistoryPoint> = Vec::new();
        let ghost mut j: int = 0;
        proof {
            assert(ssorted.take(0) =~= Seq::<(u64, Snapshot)>::empty());
            assert(ssorted.skip(0) =~= ssorted);
        }
        while rest.len() > 0
            invariant
                0 <= j <= ssorted.len(),
                rest@ == ssorted.skip(j),
                out@ == points_of(ssorted.take(j)),
            decreases rest@.len(),
        {
            let p = rest.remove(0);
            proof {
                assert(p == ssorted[j]);
                assert(rest@ =~= ssorted.skip(j + 1));
                assert(ssorted.take(j + 1).drop_last() =~= ssorted.take(j));
                assert(ssorted.take(j + 1).last() == ssorted[j]);
            }
            let s = p.1;
            out.push(
                HistoryPoint {
                    timestamp: s.ts_utc,
                    price_usd: s.price_usd,
                    market_cap_usd: s.market_cap_usd,
                },
            );
            proof {
                j = j + 1;
            }
        }
        proof {
            assert(ssorted.take(ssorted.len() as int) =~= ssorted);
        }
        out
    }
}

/// The snapshots a batch appends: one per observation, in order.
pub proof fn lemma_snaps_of_rows_index(rows: Seq<CoinRow>)
    ensures
        snaps_of_rows(rows).len() == rows.len(),
        forall|k: int| 0 <= k < rows.len() ==> #[trigger] snaps_of_rows(rows)[k] == snap_of(
            rows[k],
        ),
    decreases rows.len(),
{
    if rows.len() == 0 {
    } else {
        lemma_snaps_of_rows_index(rows.drop_last());
    }
}

/// A save appends exactly one snapshot per observation; with ids unique in
/// the batch — as a merged pass guarantees — that is exactly one snapshot
/// per coin per pass.
pub proof fn lemma_one_snapshot_per_coin(rows: Seq<CoinRow>)
    requires
        crate::fetch::unique_ids(rows),
    ensures
        snaps_of_rows(rows).len() == rows.len(),
        forall|k: int| 0 <= k < rows.len() ==> #[trigger] snaps_of_rows(rows)[k] == snap_of(
            rows[k],
        ),
        forall|k1: int, k2: int|
            0 <= k1 < k2 < rows.len() ==> snaps_of_rows(rows)[k1].coin_id != snaps_of_rows(
                rows,
            )[k2].coin_id,
{
    lemma_snaps_of_rows_index(rows);
}

/// Upserting never touches the rows already stored, and afterwards an id is
/// present exactly when it was stored before or appears in the batch.
pub proof fn lemma_upsert_props(coins: Seq<Coin>, rows: Seq<CoinRow>)
    ensures
        upsert_coins(coins, rows).len() >= coins.len(),
        forall|k: int| 0 <= k < coins.len() ==> #[trigger] upsert_coins(coins, rows)[k]
            == coins[k],
        forall|id: u64|
            #[trigger] coins_contain_id(upsert_coins(coins, rows), id) <==> (coins_contain_id(
                coins,
                id,
            ) || contains_id(rows, id)),
    decreases rows.len(),
{
    if rows.len() == 0 {
        assert forall|id: u64| #[trigger]
            coins_contain_id(upsert_coins(coins, rows), id) <==> (coins_contain_id(coins, id)
            || contains_id(rows, id)) by {
            assert(!contains_id(rows, id));
        }
    } else {
        let dl = rows.drop_last();
        let last = rows.last();
        lemma_upsert_props(coins, dl);
        let m = upsert_coins(coins, dl);
        assert forall|id: u64| #[trigger]
            coins_contain_id(upsert_coins(coins, rows), id) <==> (coins_contain_id(coins, id)
            || contains_id(rows, id)) by {
            assert(contains_id(rows, id) <==> (contains_id(dl, id) || last.id == id)) by {
                if contains_id(rows, id) {
                    let k = choose|k: int| 0 <= k < rows.len() && rows[k].id == id;
                    if k < rows.len() - 1 {
                        assert(dl[k].id == id);
                    }
                }
                if contains_id(dl, id) {
                    let k = choose|k: int| 0 <= k < dl.len() && dl[k].id == id;
                    assert(rows[k].id == id);
                }
                if last.id == id {
                    assert(rows[rows.len() - 1].id == id);
                }
            }
            if !coins_contain_id(m, last.id) {
                assert(upsert_coins(coins, rows) == m.push(coin_of(last)));
                if coins_contain_id(m, id) {
                    let k = choose|k: int| 0 <= k < m.len() && m[k].id == id;
                    assert(m.push(coin_of(last))[k].id == id);
                }
                assert(m.push(coin_of(last))[m.len() as int].id == last.id);
                if coins_contain_id(m.push(coin_of(last)), id) {
                    let k = choose|k: int|
                        0 <= k < m.push(coin_of(last)).len() && m.push(coin_of(last))[k].id == id;
                    if k < m.len() {
                        assert(m[k].id == id);
                    }
                }
            }
        }
    }
}

/// Upserting a batch whose every id is already stored changes nothing.
pub proof fn lemma_upsert_noop(coins: Seq<Coin>, rows: Seq<CoinRow>)
    requires
        forall|k: int| 0 <= k < rows.len() ==> coins_contain_id(coins, #[trigger] rows[k].id),
    ensures
        upsert_coins(coins, rows) == coins,
    decreases rows.len(),
{
    if rows.len() == 0 {
    } else {
        let dl = rows.drop_last();
        assert forall|k: int|
            0 <= k < dl.len() implies coins_contain_id(coins, #[trigger] dl[k].id) by {
            assert(dl[k] == rows[k]);
        }
        lemma_upsert_noop(coins, dl);
        assert(rows[rows.len() - 1] == rows.last());
    }
}

/// Upserting the same batch a second time leaves the coin table exactly as
/// the first pass left it: the insert-if-absent is idempotent.
pub proof fn lemma_coin_upsert_idempotent(coins: Seq<Coin>, rows: Seq<CoinRow>)
    ensures
        upsert_coins(upsert_coins(coins, rows), rows) == upsert_coins(coins, rows),
{
    lemma_upsert_props(coins, rows);
    let m = upsert_coins(coins, rows);
    assert forall|k: int|
        0 <= k < rows.len() implies coins_contain_id(m, #[trigger] rows[k].id) by {
        assert(contains_id(rows, rows[k].id));
    }
    lemma_upsert_noop(m, rows);
}

/// API records joined from keyed snapshots, one per row, in order.
pub proof fn lemma_responses_index(coins: Seq<Coin>, pairs: Seq<(u64, Snapshot)>)
    ensures
        responses_of(coins, pairs).len() == pairs.len(),
        forall|k: int|
            0 <= k < pairs.len() ==> #[trigger] responses_of(coins, pairs)[k] == response_of(
                find_coin(coins, pairs[k].1.coin_id)->0,
                pairs[k].1,
            ),
    decreases pairs.len(),
{
    if pairs.len() == 0 {
    } else {
        lemma_responses_index(coins, pairs.drop_last());
    }
}

/// Every row of the latest ranked listing carries a rank, shares the
/// globally greatest observed_at, and the rows come in ascending rank; the
/// listing never exceeds the limit.
pub proof fn lemma_latest_ranked_rows(coins: Seq<Coin>, snaps: Seq<Snapshot>, limit: int)
    requires
        limit >= 0,
    ensures
        responses_of(coins, spec_latest_ranked(snaps, limit)).len() <= limit,
        forall|k: int|
            0 <= k < responses_of(coins, spec_latest_ranked(snaps, limit)).len() ==> (
            #[trigger] responses_of(coins, spec_latest_ranked(snaps, limit))[k]).rank is Some
                && responses_of(coins, spec_latest_ranked(snaps, limit))[k].ts_utc == max_ts(
                snaps,
            ),
        forall|i: int, j: int|
            0 <= i < j < responses_of(coins, spec_latest_ranked(snaps, limit)).len()
                ==> responses_of(coins, spec_latest_ranked(snaps, limit))[i].rank->0
                <= responses_of(coins, spec_latest_ranked(snaps, limit))[j].rank->0,
{
    let m = max_ts(snaps);
    let rlp = ranked_latest_pairs(snaps, m);
    let sorted = crate::sorting::sort_pairs(rlp);
    let taken = spec_latest_ranked(snaps, limit);
    crate::sorting::lemma_sort_pairs_props(rlp);
    lemma_ranked_latest_pairs_elems(snaps, m);
    lemma_responses_index(coins, taken);
    assert forall|k: int|
        0 <= k < taken.len() implies (#[trigger] taken[k]).1.rank is Some && taken[k].1.ts_utc
        == m && taken[k].0 == taken[k].1.rank->0 by {
        assert(taken[k] == sorted[k]);
        crate::sorting::lemma_sort_pairs_membership(rlp, k);
        let w = choose|w: int| 0 <= w < rlp.len() && rlp[w] == sorted[k];
        assert(rlp[w].1 == sorted[k].1);
    }
    assert forall|k: int|
        0 <= k < responses_of(coins, taken).len() implies (#[trigger] responses_of(
        coins,
        taken,
    )[k]).rank is Some && responses_of(coins, taken)[k].ts_utc == m by {
        assert(responses_of(coins, taken)[k] == response_of(
            find_coin(coins, taken[k].1.coin_id)->0,
            taken[k].1,
        ));
    }
    assert forall|i: int, j: int|
        0 <= i < j < responses_of(coins, taken).len() implies responses_of(
        coins,
        taken,
    )[i].rank->0 <= responses_of(coins, taken)[j].rank->0 by {
        assert(taken[i] == sorted[i]);
        assert(taken[j] == sorted[j]);
        assert(sorted[i].0 <= sorted[j].0);
    }
}

/// One coin's keyed snapshots cover every stored snapshot of that coin.
pub proof fn lemma_coin_ts_pairs_complete(snaps: Seq<Snapshot>, id: u64)
    ensures
        forall|k: int|
            0 <= k < snaps.len() && (#[trigger] snaps[k]).coin_id == id ==> coin_ts_pairs(
                snaps,
                id,
            ).contains((snaps[k].ts_utc, snaps[k])),
    decreases snaps.len(),
{
    if snaps.len() == 0 {
    } else {
        let dl = snaps.drop_last();
        lemma_coin_ts_pairs_complete(dl, id);
        let whole = coin_ts_pairs(snaps, id);
        let front = coin_ts_pairs(dl, id);
        assert forall|k: int|
            0 <= k < snaps.len() && (#[trigger] snaps[k]).coin_id == id implies whole.contains(
            (snaps[k].ts_utc, snaps[k]),
        ) by {
            if k < snaps.len() - 1 {
                assert(dl[k] == snaps[k]);
                assert(front.contains((snaps[k].ts_utc, snaps[k])));
                let w = choose|w: int|
                    0 <= w < front.len() && front[w] == (snaps[k].ts_utc, snaps[k]);
                if snaps.last().coin_id == id {
                    assert(whole[w] == front[w]);
                } else {
                    assert(whole[w] == front[w]);
                }
            } else {
                assert(whole.last() == (snaps[k].ts_utc, snaps[k]));
            }
        }
    }
}

/// History points projected from keyed snapshots, one per row, in order.
pub proof fn lemma_points_of_index(pairs: Seq<(u64, Snapshot)>)
    ensures
        points_of(pairs).len() == pairs.len(),
        forall|k: int| 0 <= k < pairs.len() ==> #[trigger] points_of(pairs)[k] == point_of(
            pairs[k].1,
        ),
    decreases pairs.len(),
{
    if pairs.len() == 0 {
    } else {
        lemma_points_of_index(pairs.drop_last());
    }
}

/// The history of a symbol is ascending by timestamp, holds one point per
/// stored snapshot of the matching coin — so it keeps every append — and is
/// empty exactly where no coin matches.
pub proof fn lemma_history_sorted_and_complete(
    coins: Seq<Coin>,
    snaps: Seq<Snapshot>,
    sym: Seq<char>,
)
    ensures
        forall|i: int, j: int|
            0 <= i < j < spec_history(coins, snaps, sym).len() ==> spec_history(
                coins,
                snaps,
                sym,
            )[i].timestamp <= spec_history(coins, snaps, sym)[j].timestamp,
        find_coin_by_symbol(coins, upper_seq(sym)) is None ==> spec_history(coins, snaps, sym).len()
            == 0,
        find_coin_by_symbol(coins, upper_seq(sym)) matches Some(c) ==> spec_history(
            coins,
            snaps,
            sym,
        ).len() == coin_ts_pairs(snaps, c.id).len(),
        find_coin_by_symbol(coins, upper_seq(sym)) matches Some(c) ==> forall|k: int|
            0 <= k < snaps.len() && (#[trigger] snaps[k]).coin_id == c.id ==> spec_history(
                coins,
                snaps,
                sym,
            ).contains(point_of(snaps[k])),
{
    broadcast use vstd::seq_lib::group_to_multiset_ensures;

    match find_coin_by_symbol(coins, upper_seq(sym)) {
        None => {},
        Some(c) => {
            let pairs = coin_ts_pairs(snaps, c.id);
            let sorted = crate::sorting::sort_pairs(pairs);
            crate::sorting::lemma_sort_pairs_props(pairs);
            lemma_coin_ts_pairs_elems(snaps, c.id);
            lemma_coin_ts_pairs_complete(snaps, c.id);
            lemma_points_of_index(sorted);
            assert forall|k: int|
                0 <= k < sorted.len() implies (#[trigger] sorted[k]).0 == sorted[k].1.ts_utc by {
                crate::sorting::lemma_sort_pairs_membership(pairs, k);
                let w = choose|w: int| 0 <= w < pairs.len() && pairs[w] == sorted[k];
                assert(pairs[w].0 == pairs[w].1.ts_utc);
            }
            assert forall|i: int, j: int|
                0 <= i < j < spec_history(coins, snaps, sym).len() implies spec_history(
                coins,
                snaps,
                sym,
            )[i].timestamp <= spec_history(coins, snaps, sym)[j].timestamp by {
                assert(spec_history(coins, snaps, sym)[i] == point_of(sorted[i].1));
                assert(spec_history(coins, snaps, sym)[j] == point_of(sorted[j].1));
                assert(sorted[i].0 <= sorted[j].0);
            }
            assert forall|k: int|
                0 <= k < snaps.len() && (#[trigger] snaps[k]).coin_id == c.id implies spec_history(
                coins,
                snaps,
                sym,
            ).contains(point_of(snaps[k])) by {
                assert(pairs.contains((snaps[k].ts_utc, snaps[k])));
                assert(pairs.to_multiset().count((snaps[k].ts_utc, snaps[k])) > 0);
                assert(sorted.to_multiset().count((snaps[k].ts_utc, snaps[k])) > 0);
                assert(sorted.contains((snaps[k].ts_utc, snaps[k])));
                let w = choose|w: int|
                    0 <= w < sorted.len() && sorted[w] == (snaps[k].ts_utc, snaps[k]);
                assert(spec_history(coins, snaps, sym)[w] == point_of(snaps[k]));
            }
        },
    }
}

/// Symbol lookups are case-insensitive: a query and its upper-cased form
/// answer identically, for the single-latest record and for the history.
pub proof fn lemma_lookup_case_insensitive(coins: Seq<Coin>, snaps: Seq<Snapshot>, sym: Seq<char>)
    ensures
        spec_latest(coins, snaps, upper_seq(sym)) == spec_latest(coins, snaps, sym),
        spec_history(coins, snaps, upper_seq(sym)) == spec_history(coins, snaps, sym),
{
    crate::strings::lemma_upper_seq_idempotent(sym);
}

} // verus!
