//! The fetch-cycle core: aggregation of per-(token, protocol) quote
//! outcomes and arbitrage detection.
//!
//! One cycle issues exactly one quote request per (token, protocol)
//! pair. The surrounding loop runs the requests (concurrently; the
//! transport is outside the crate) and hands back one outcome per pair
//! in the fixed order `token index · protocol count + protocol index`.
//! Aggregation and detection are pure functions of that outcome vector,
//! so the result cannot depend on the completion order of the requests:
//! each pair owns exactly one slot.

use vstd::prelude::*;
use crate::dex::{DexKind, DexType};
use crate::spread::{
    price_diff, price_base, spread_meets, spread_ge, spread_meets_threshold, spread_order_ge,
};

verus! {

broadcast use vstd::string::to_string_from_display_ensures_for_str, vstd::seq_lib::group_to_multiset_ensures;

/// One token of the per-cycle universe: its address and an optional
/// display name.
pub struct TokenEntry {
    pub address: String,
    pub name: Option<String>,
}

/// The abstract value of a token entry.
pub struct TokenEntryView {
    pub address: Seq<char>,
    pub name: Option<Seq<char>>,
}

impl View for TokenEntry {
    type V = TokenEntryView;

    open spec fn view(&self) -> TokenEntryView {
        TokenEntryView {
            address: self.address@,
            name: match self.name {
                Some(s) => Some(s@),
                None => None,
            },
        }
    }
}

/// One successful quote: token, protocol, scaled price, timestamp.
pub struct TokenPrice {
    pub token_address: String,
    pub dex: DexKind,
    pub price_scaled: u128,
    pub timestamp: i64,
}

/// The abstract value of a quote.
pub struct TokenPriceView {
    pub token_address: Seq<char>,
    pub dex: DexKind,
    pub price_scaled: u128,
    pub timestamp: i64,
}

impl View for TokenPrice {
    type V = TokenPriceView;

    open spec fn view(&self) -> TokenPriceView {
        TokenPriceView {
            token_address: self.token_address@,
            dex: self.dex,
            price_scaled: self.price_scaled,
            timestamp: self.timestamp,
        }
    }
}

/// A detected opportunity: the token, the two designated protocols'
/// scaled prices, and the detection timestamp. The spread is not
/// stored rounded; it is the exact rational `|price_a − price_b| /
/// min(price_a, price_b)`, available through `spread_parts`.
pub struct ArbitrageOpportunity {
    pub token_address: String,
    pub token_name: Option<String>,
    pub price_a: u128,
    pub price_b: u128,
    pub timestamp: i64,
}

/// The abstract value of an opportunity.
pub struct ArbitrageOpportunityView {
    pub token_address: Seq<char>,
    pub token_name: Option<Seq<char>>,
    pub price_a: u128,
    pub price_b: u128,
    pub timestamp: i64,
}

impl View for ArbitrageOpportunity {
    type V = ArbitrageOpportunityView;

    open spec fn view(&self) -> ArbitrageOpportunityView {
        ArbitrageOpportunityView {
            token_address: self.token_address@,
            token_name: match self.token_name {
                Some(s) => Some(s@),
                None => None,
            },
            price_a: self.price_a,
            price_b: self.price_b,
            timestamp: self.timestamp,
        }
    }
}

impl ArbitrageOpportunity {
    /// Records an opportunity between the two designated protocols'
    /// prices at the given detection time.
    pub fn new(
        token_address: String,
        token_name: Option<String>,
        price_a: u128,
        price_b: u128,
        timestamp: i64,
    ) -> (r: Self)
        ensures
            r.token_address == token_address,
            r.token_name == token_name,
            r.price_a == price_a,
            r.price_b == price_b,
            r.timestamp == timestamp,
    {
        ArbitrageOpportunity { token_address, token_name, price_a, price_b, timestamp }
    }

    /// The exact spread fraction: numerator `|price_a − price_b|` and
    /// base `min(price_a, price_b)`; the spread in percent is the
    /// former over the latter times one hundred.
    pub fn spread_parts(&self) -> (r: (u128, u128))
        ensures
            r.0 == price_diff(self.price_a as nat, self.price_b as nat),
            r.1 == price_base(self.price_a as nat, self.price_b as nat),
    {
        let diff: u128 = if self.price_a >= self.price_b {
            self.price_a - self.price_b
        } else {
            self.price_b - self.price_a
        };
        let base: u128 = if self.price_a <= self.price_b {
            self.price_a
        } else {
            self.price_b
        };
        (diff, base)
    }
}

/// The views of a sequence of opportunities.
pub open spec fn opp_views(s: Seq<ArbitrageOpportunity>) -> Seq<ArbitrageOpportunityView> {
    s.map_values(|o: ArbitrageOpportunity| o@)
}

/// The views of a sequence of token entries.
pub open spec fn entry_views(s: Seq<TokenEntry>) -> Seq<TokenEntryView> {
    s.map_values(|e: TokenEntry| e@)
}

/// An opportunity whose spread is defined: its base price is nonzero.
pub open spec fn opp_defined(o: ArbitrageOpportunityView) -> bool {
    price_base(o.price_a as nat, o.price_b as nat) > 0
}

/// The first quote delivered for the given protocol, scanning the
/// configured protocols in order and skipping pairs whose request
/// failed.
pub open spec fn quote_for_spec(
    dexes: Seq<DexType>,
    row: Seq<Option<u128>>,
    kind: DexKind,
) -> Option<u128>
    decreases dexes.len(),
{
    if dexes.len() == 0 || row.len() == 0 {
        None
    } else if dexes[0].kind_spec() == kind && row[0] is Some {
        row[0]
    } else {
        quote_for_spec(dexes.drop_first(), row.drop_first(), kind)
    }
}

/// The outcome slots of one token's row: one per configured protocol.
pub open spec fn row_of(outcomes: Seq<Option<u128>>, i: int, m: int) -> Seq<Option<u128>> {
    outcomes.subrange(i * m, i * m + m)
}

/// The opportunity a token contributes, if any: both designated
/// protocols must have quoted it in this cycle, the spread must be
/// defined (nonzero base) and at least the threshold.
pub open spec fn token_opportunity(
    entry: TokenEntryView,
    dexes: Seq<DexType>,
    row: Seq<Option<u128>>,
    dex_a: DexKind,
    dex_b: DexKind,
    threshold: nat,
    now: i64,
) -> Option<ArbitrageOpportunityView> {
    let qa = quote_for_spec(dexes, row, dex_a);
    let qb = quote_for_spec(dexes, row, dex_b);
    if qa is Some && qb is Some && spread_meets(qa->0 as nat, qb->0 as nat, threshold) {
        Some(
            ArbitrageOpportunityView {
                token_address: entry.address,
                token_name: entry.name,
                price_a: qa->0,
                price_b: qb->0,
                timestamp: now,
            },
        )
    } else {
        None
    }
}

/// The opportunities contributed by the first `k` tokens, in token
/// order.
pub open spec fn opportunities_upto(
    tokens: Seq<TokenEntryView>,
    dexes: Seq<DexType>,
    outcomes: Seq<Option<u128>>,
    dex_a: DexKind,
    dex_b: DexKind,
    threshold: nat,
    now: i64,
    k: int,
) -> Seq<ArbitrageOpportunityView>
    decreases k,
{
    if k <= 0 {
        Seq::empty()
    } else {
        let prev = opportunities_upto(tokens, dexes, outcomes, dex_a, dex_b, threshold, now, k - 1);
        match token_opportunity(
            tokens[k - 1],
            dexes,
            row_of(outcomes, k - 1, dexes.len() as int),
            dex_a,
            dex_b,
            threshold,
            now,
        ) {
            Some(o) => prev.push(o),
            None => prev,
        }
    }
}

/// The quotes collected from the first `k` outcome slots, in slot
/// order: slot `t` belongs to token `t / m` and protocol `t % m`.
pub open spec fn collected_upto(
    tokens: Seq<TokenEntryView>,
    dexes: Seq<DexType>,
    outcomes: Seq<Option<u128>>,
    now: i64,
    k: int,
) -> Seq<TokenPriceView>
    decreases k,
{
    if k <= 0 {
        Seq::empty()
    } else {
        let prev = collected_upto(tokens, dexes, outcomes, now, k - 1);
        let m = dexes.len() as int;
        match outcomes[k - 1] {
            Some(p) => prev.push(
                TokenPriceView {
                    token_address: tokens[(k - 1) / m].address,
                    dex: dexes[(k - 1) % m].kind_spec(),
                    price_scaled: p,
                    timestamp: now,
                },
            ),
            None => prev,
        }
    }
}

/// The fetch-cycle coordinator: the ordered, immutable set of
/// configured protocol adapters.
pub struct PriceFetcher {
    pub dexes: Vec<DexType>,
}

impl PriceFetcher {
    /// A coordinator with no protocols configured yet.
    pub fn new() -> (r: Self)
        ensures
            r.dexes@.len() == 0,
    {
        PriceFetcher { dexes: Vec::new() }
    }

    /// Appends a protocol adapter to the registry.
    pub fn add_dex(&mut self, dex: DexType)
        ensures
            final(self).dexes@ == old(self).dexes@.push(dex),
    {
        self.dexes.push(dex);
    }

    /// The number of quote requests one cycle issues: one per
    /// (token, protocol) pair. `None` when the product does not fit.
    pub fn request_count(&self, n_tokens: usize) -> (r: Option<usize>)
        ensures
            r is Some <==> n_tokens * self.dexes@.len() <= usize::MAX,
            r matches Some(c) ==> c == n_tokens * self.dexes@.len(),
    {
        let m = self.dexes.len();
        if m == 0 {
            proof {
                assert(n_tokens * self.dexes@.len() == 0) by (nonlinear_arith)
                    requires
                        self.dexes@.len() == 0,
                ;
            }
            return Some(0);
        }
        proof {
            vstd::arithmetic::div_mod::lemma_fundamental_div_mod(usize::MAX as int, m as int);
        }
        if n_tokens <= usize::MAX / m {
            proof {
                assert(n_tokens * m <= usize::MAX) by (nonlinear_arith)
                    requires
                        0 < m,
                        n_tokens <= (usize::MAX as int) / (m as int),
                        usize::MAX as int == m * ((usize::MAX as int) / (m as int)) + (
                        usize::MAX as int) % (m as int),
                        ((usize::MAX as int) % (m as int)) >= 0,
                ;
            }
            Some(n_tokens * m)
        } else {
            proof {
                assert(n_tokens * m > usize::MAX) by (nonlinear_arith)
                    requires
                        0 < m,
                        n_tokens > (usize::MAX as int) / (m as int),
                        usize::MAX as int == m * ((usize::MAX as int) / (m as int)) + (
                        usize::MAX as int) % (m as int),
                        ((usize::MAX as int) % (m as int)) < m,
                ;
            }
            None
        }
    }

    /// Collects the successful quotes of one cycle, in slot order. The
    /// outcome vector holds one slot per (token, protocol) pair.
    pub fn collect_prices(
        &self,
        tokens: &Vec<TokenEntry>,
        outcomes: &Vec<Option<u128>>,
        now: i64,
    ) -> (r: Vec<TokenPrice>)
        requires
            outcomes@.len() == tokens@.len() * self.dexes@.len(),
        ensures
            r@.map_values(|p: TokenPrice| p@) == collected_upto(
                entry_views(tokens@),
                self.dexes@,
                outcomes@,
                now,
                outcomes@.len() as int,
            ),
    {
        let m = self.dexes.len();
        let total = outcomes.len();
        let mut r: Vec<TokenPrice> = Vec::new();
        let mut k: usize = 0;
        proof {
            assert(r@.map_values(|p: TokenPrice| p@) =~= collected_upto(
                entry_views(tokens@),
                self.dexes@,
                outcomes@,
                now,
                0,
            ));
        }
        while k < total
            invariant
                total == outcomes@.len(),
                m == self.dexes@.len(),
                outcomes@.len() == tokens@.len() * self.dexes@.len(),
                k <= total,
                r@.map_values(|p: TokenPrice| p@) == collected_upto(
                    entry_views(tokens@),
                    self.dexes@,
                    outcomes@,
                    now,
                    k as int,
                ),
            decreases total - k,
        {
            proof {
                if m == 0 {
                    assert(tokens@.len() * self.dexes@.len() == 0) by (nonlinear_arith)
                        requires
                            self.dexes@.len() == 0,
                    ;
                }
                assert((k as int) / (m as int) < tokens@.len() && (k as int) % (m as int)
                    < m as int) by (nonlinear_arith)
                    requires
                        0 < m,
                        0 <= k < tokens@.len() * (m as int),
                ;
            }
            let i = k / m;
            let j = k % m;
            match &outcomes[k] {
                Some(p) => {
                    let entry = &tokens[i];
                    let tp = TokenPrice {
                        token_address: entry.address.clone(),
                        dex: self.dexes[j].kind(),
                        price_scaled: *p,
                        timestamp: now,
                    };
                    let ghost prev = r@;
                    r.push(tp);
                    proof {
                        assert(r@.map_values(|p2: TokenPrice| p2@) =~= prev.map_values(
                            |p2: TokenPrice| p2@,
                        ).push(tp@));
                        assert(entry_views(tokens@)[i as int] == tokens@[i as int]@);
                    }
                },
                None => {
                },
            }
            k += 1;
        }
        r
    }

    /// Detects and ranks arbitrage opportunities. For each token, the
    /// two designated protocols' quotes are compared; tokens quoted by
    /// fewer than the two, with a zero base price (undefined spread),
    /// or with a spread below the threshold are dropped. The result
    /// holds exactly the qualifying tokens' opportunities, ordered by
    /// nonincreasing spread; the order is deterministic for a given
    /// input.
    pub fn find_arbitrage_opportunities(
        &self,
        tokens: &Vec<TokenEntry>,
        outcomes: &Vec<Option<u128>>,
        min_spread_scaled: u128,
        dex_a: DexKind,
        dex_b: DexKind,
        now: i64,
    ) -> (r: Vec<ArbitrageOpportunity>)
        requires
            outcomes@.len() == tokens@.len() * self.dexes@.len(),
            dex_a != dex_b,
        ensures
            opp_views(r@).to_multiset() == opportunities_upto(
                entry_views(tokens@),
                self.dexes@,
                outcomes@,
                dex_a,
                dex_b,
                min_spread_scaled as nat,
                now,
                tokens@.len() as int,
            ).to_multiset(),
            forall|i: int, j: int|
                0 <= i <= j < r@.len() ==> spread_ge(
                    r@[i].price_a as nat,
                    r@[i].price_b as nat,
                    r@[j].price_a as nat,
                    r@[j].price_b as nat,
                ),
    {
        let n = tokens.len();
        let m = self.dexes.len();
        let total = outcomes.len();
        let mut cand: Vec<ArbitrageOpportunity> = Vec::new();
        let mut i: usize = 0;
        proof {
            assert(opp_views(cand@) =~= opportunities_upto(
                entry_views(tokens@),
                self.dexes@,
                outcomes@,
                dex_a,
                dex_b,
                min_spread_scaled as nat,
                now,
                0,
            ));
        }
        while i < n
            invariant
                n == tokens@.len(),
                m == self.dexes@.len(),
                total == outcomes@.len(),
                outcomes@.len() == tokens@.len() * self.dexes@.len(),
                i <= n,
                opp_views(cand@) == opportunities_upto(
                    entry_views(tokens@),
                    self.dexes@,
                    outcomes@,
                    dex_a,
                    dex_b,
                    min_spread_scaled as nat,
                    now,
                    i as int,
                ),
                forall|t: int| 0 <= t < cand@.len() ==> opp_defined(#[trigger] cand@[t]@),
            decreases n - i,
        {
            proof {
                assert((i as int) * (m as int) + m <= (n as int) * (m as int))
                    by (nonlinear_arith)
                    requires
                        0 <= i < n,
                        0 <= m,
                ;
                assert((i as int) * (m as int) >= 0) by (nonlinear_arith)
                    requires
                        0 <= i,
                        0 <= m,
                ;
            }
            let base = i * m;
            let qa = quote_for(&self.dexes, outcomes, base, dex_a);
            let qb = quote_for(&self.dexes, outcomes, base, dex_b);
            let ghost row = row_of(outcomes@, i as int, m as int);
            proof {
                assert(row =~= outcomes@.subrange(base as int, base as int + m));
            }
            match (qa, qb) {
                (Some(pa), Some(pb)) => {
                    if spread_meets_threshold(pa, pb, min_spread_scaled) {
                        let entry = &tokens[i];
                        let name = match &entry.name {
                            Some(s) => Some(s.clone()),
                            None => None,
                        };
                        let o = ArbitrageOpportunity {
                            token_address: entry.address.clone(),
                            token_name: name,
                            price_a: pa,
                            price_b: pb,
                            timestamp: now,
                        };
                        let ghost prev = cand@;
                        cand.push(o);
                        proof {
                            assert(opp_views(cand@) =~= opp_views(prev).push(o@));
                            assert(entry_views(tokens@)[i as int] == tokens@[i as int]@);
                        }
                    }
                },
                _ => {
                },
            }
            i += 1;
        }
        sort_by_spread(cand)
    }
}

/// The first quote in the row for the given protocol, scanning the
/// configured protocols in order.
fn quote_for(
    dexes: &Vec<DexType>,
    outcomes: &Vec<Option<u128>>,
    base: usize,
    kind: DexKind,
) -> (r: Option<u128>)
    requires
        base + dexes@.len() <= outcomes@.len(),
    ensures
        r == quote_for_spec(
            dexes@,
            outcomes@.subrange(base as int, base as int + dexes@.len()),
            kind,
        ),
{
    let m = dexes.len();
    let total = outcomes.len();
    let ghost row = outcomes@.subrange(base as int, base as int + dexes@.len());
    let mut j: usize = 0;
    proof {
        assert(dexes@.skip(0) =~= dexes@);
        assert(row.skip(0) =~= row);
    }
    while j < m
        invariant
            m == dexes@.len(),
            total == outcomes@.len(),
            base + m <= total,
            j <= m,
            row == outcomes@.subrange(base as int, base as int + m),
            quote_for_spec(dexes@, row, kind) == quote_for_spec(
                dexes@.skip(j as int),
                row.skip(j as int),
                kind,
            ),
        decreases m - j,
    {
        let matches_kind = dexes[j].kind() == kind;
        let slot = outcomes[base + j];
        proof {
            assert(dexes@.skip(j as int)[0] == dexes@[j as int]);
            assert(row.skip(j as int)[0] == row[j as int]);
            assert(row[j as int] == outcomes@[base + j]);
            assert(dexes@.skip(j as int).drop_first() =~= dexes@.skip(j + 1));
            assert(row.skip(j as int).drop_first() =~= row.skip(j + 1));
        }
        if matches_kind && slot.is_some() {
            return slot;
        }
        j += 1;
    }
    proof {
        assert(dexes@.skip(m as int).len() == 0);
    }
    None
}

/// Spread ordering is transitive across a pair with a defined spread.
proof fn lemma_spread_ge_trans(
    xa: nat,
    xb: nat,
    ya: nat,
    yb: nat,
    za: nat,
    zb: nat,
)
    requires
        spread_ge(xa, xb, ya, yb),
        spread_ge(ya, yb, za, zb),
        price_base(ya, yb) > 0,
    ensures
        spread_ge(xa, xb, za, zb),
{
    let dx = price_diff(xa, xb);
    let bx = price_base(xa, xb);
    let dy = price_diff(ya, yb);
    let by0 = price_base(ya, yb);
    let dz = price_diff(za, zb);
    let bz = price_base(za, zb);
    assert(dx * by0 * bz >= dy * bx * bz) by (nonlinear_arith)
        requires
            dx * by0 >= dy * bx,
            bz >= 0,
    ;
    assert(dy * bz * bx >= dz * by0 * bx) by (nonlinear_arith)
        requires
            dy * bz >= dz * by0,
            bx >= 0,
    ;
    assert(dx * by0 * bz >= dz * by0 * bx) by (nonlinear_arith)
        requires
            dx * by0 * bz >= dy * bx * bz,
            dy * bz * bx >= dz * by0 * bx,
    ;
    assert(dx * bz >= dz * bx) by (nonlinear_arith)
        requires
            dx * by0 * bz >= dz * by0 * bx,
            by0 > 0,
    ;
}

/// Whether one opportunity's spread is at least another's.
pub open spec fn opp_ge(a: ArbitrageOpportunityView, b: ArbitrageOpportunityView) -> bool {
    spread_ge(a.price_a as nat, a.price_b as nat, b.price_a as nat, b.price_b as nat)
}

/// Sorts opportunities by nonincreasing spread: a permutation of the
/// input, ranked by exact cross-multiplied comparison. Selection by
/// running maximum, first seen winning ties, so the order is
/// deterministic for a given input.
fn sort_by_spread(input: Vec<ArbitrageOpportunity>) -> (r: Vec<ArbitrageOpportunity>)
    requires
        forall|t: int| 0 <= t < input@.len() ==> opp_defined(#[trigger] input@[t]@),
    ensures
        opp_views(r@).to_multiset() == opp_views(input@).to_multiset(),
        forall|i: int, j: int|
            0 <= i <= j < r@.len() ==> spread_ge(
                r@[i].price_a as nat,
                r@[i].price_b as nat,
                r@[j].price_a as nat,
                r@[j].price_b as nat,
            ),
{
    let ghost input_ms = opp_views(input@).to_multiset();
    let mut rest = input;
    let mut out: Vec<ArbitrageOpportunity> = Vec::new();
    while rest.len() > 0
        invariant
            opp_views(out@).to_multiset().add(opp_views(rest@).to_multiset()) == input_ms,
            forall|t: int| 0 <= t < rest@.len() ==> opp_defined(#[trigger] rest@[t]@),
            forall|t: int| 0 <= t < out@.len() ==> opp_defined(#[trigger] out@[t]@),
            forall|i: int, j: int| 0 <= i <= j < out@.len() ==> opp_ge(out@[i]@, out@[j]@),
            forall|i: int, j: int|
                0 <= i < out@.len() && 0 <= j < rest@.len() ==> opp_ge(out@[i]@, rest@[j]@),
        decreases rest@.len(),
    {
        let len = rest.len();
        let mut mi: usize = 0;
        let mut j: usize = 1;
        while j < len
            invariant
                len == rest@.len(),
                len > 0,
                mi < j <= len,
                forall|t: int| 0 <= t < rest@.len() ==> opp_defined(#[trigger] rest@[t]@),
                forall|t: int| 0 <= t < j ==> opp_ge(rest@[mi as int]@, rest@[t]@),
            decreases len - j,
        {
            let keep = spread_order_ge(
                rest[mi].price_a,
                rest[mi].price_b,
                rest[j].price_a,
                rest[j].price_b,
            );
            if !keep {
                proof {
                    assert forall|t: int| 0 <= t < j + 1 implies opp_ge(
                        rest@[j as int]@,
                        rest@[t]@,
                    ) by {
                        if t < j {
                            lemma_spread_ge_trans(
                                rest@[j as int]@.price_a as nat,
                                rest@[j as int]@.price_b as nat,
                                rest@[mi as int]@.price_a as nat,
                                rest@[mi as int]@.price_b as nat,
                                rest@[t]@.price_a as nat,
                                rest@[t]@.price_b as nat,
                            );
                        }
                    }
                }
                mi = j;
            }
            j += 1;
        }
        let ghost old_rest = rest@;
        let ghost old_out = out@;
        let picked = rest.remove(mi);
        out.push(picked);
        proof {
            assert(opp_views(rest@) =~= opp_views(old_rest).remove(mi as int));
            assert(opp_views(out@) =~= opp_views(old_out).push(picked@));
            assert(opp_views(old_rest)[mi as int] == picked@);
            assert(opp_views(old_rest).contains(picked@));
            assert(opp_views(out@).to_multiset().add(opp_views(rest@).to_multiset())
                =~= opp_views(old_out).to_multiset().add(opp_views(old_rest).to_multiset()));
            assert forall|t: int| 0 <= t < rest@.len() implies opp_ge(picked@, rest@[t]@) by {
                if t < mi {
                    assert(rest@[t] == old_rest[t]);
                } else {
                    assert(rest@[t] == old_rest[t + 1]);
                }
            }
        }
    }
    proof {
        assert forall|i: int, j: int| 0 <= i <= j < out@.len() implies spread_ge(
            out@[i].price_a as nat,
            out@[i].price_b as nat,
            out@[j].price_a as nat,
            out@[j].price_b as nat,
        ) by {
            assert(opp_ge(out@[i]@, out@[j]@));
        }
    }
    out
}

/// The count of slots among the first `k` whose request succeeded.
pub open spec fn some_count(outcomes: Seq<Option<u128>>, k: int) -> nat
    decreases k,
{
    if k <= 0 {
        0
    } else {
        some_count(outcomes, k - 1) + if outcomes[k - 1] is Some {
            1nat
        } else {
            0nat
        }
    }
}

/// Each (token, protocol) pair contributes at most one quote per
/// cycle: the collected quotes are exactly one per successful outcome
/// slot, so no pair is ever queried or recorded twice in a cycle.
pub proof fn lemma_one_quote_per_pair(
    tokens: Seq<TokenEntryView>,
    dexes: Seq<DexType>,
    outcomes: Seq<Option<u128>>,
    now: i64,
    k: int,
)
    ensures
        collected_upto(tokens, dexes, outcomes, now, k).len() == some_count(outcomes, k),
    decreases k,
{
    if k > 0 {
        lemma_one_quote_per_pair(tokens, dexes, outcomes, now, k - 1);
    }
}

/// The quotes an outcome prefix yields depend only on that prefix's
/// slots: two cycles whose first `k` (token, protocol) outcomes agree
/// collect exactly the same quotes from them, whatever happened to any
/// other slot and in whatever order the requests completed.
pub proof fn lemma_collected_slot_isolation(
    tokens: Seq<TokenEntryView>,
    dexes: Seq<DexType>,
    o1: Seq<Option<u128>>,
    o2: Seq<Option<u128>>,
    now: i64,
    k: int,
)
    requires
        forall|t: int| 0 <= t < k ==> o1[t] == o2[t],
    ensures
        collected_upto(tokens, dexes, o1, now, k) == collected_upto(tokens, dexes, o2, now, k),
    decreases k,
{
    if k > 0 {
        lemma_collected_slot_isolation(tokens, dexes, o1, o2, now, k - 1);
    }
}

/// The detected opportunities depend only on the outcome slots of the
/// tokens considered: two cycles whose outcome vectors agree slot for
/// slot yield the same opportunity set, whatever order the underlying
/// requests completed in.
pub proof fn lemma_detection_slot_isolation(
    tokens: Seq<TokenEntryView>,
    dexes: Seq<DexType>,
    o1: Seq<Option<u128>>,
    o2: Seq<Option<u128>>,
    dex_a: DexKind,
    dex_b: DexKind,
    threshold: nat,
    now: i64,
    k: int,
)
    requires
        o1.len() == o2.len(),
        forall|t: int| 0 <= t < k * dexes.len() ==> o1[t] == o2[t],
        k * dexes.len() <= o1.len(),
    ensures
        opportunities_upto(tokens, dexes, o1, dex_a, dex_b, threshold, now, k)
            == opportunities_upto(tokens, dexes, o2, dex_a, dex_b, threshold, now, k),
    decreases k,
{
    let m = dexes.len() as int;
    if k > 0 {
        assert((k - 1) * m <= k * m && (k - 1) * m >= 0) by (nonlinear_arith)
            requires
                k >= 1,
                m >= 0,
        ;
        lemma_detection_slot_isolation(
            tokens,
            dexes,
            o1,
            o2,
            dex_a,
            dex_b,
            threshold,
            now,
            k - 1,
        );
        assert((k - 1) * m + m == k * m) by (nonlinear_arith);
        assert(row_of(o1, k - 1, m) =~= row_of(o2, k - 1, m));
    }
}

} // verus!
