//! Protocol adapters: the closed set of supported pool protocols, their
//! on-chain query filters, and pool selection.
//!
//! Each protocol exposes the same quoting capability: build the filters
//! for a (token, reference) pair, select the best candidate among the
//! returned accounts, and derive the price. The transport that runs the
//! filters against the chain lives outside the crate; the decisions are
//! all here.

use vstd::prelude::*;
use crate::codec::le_val;
use crate::decode::{
    ReservePool, WhirlpoolState, RESERVE_POOL_ACCOUNT_SIZE, WHIRLPOOL_ACCOUNT_SIZE,
    MINT_ACCOUNT_SIZE, decode_mint_decimals, decode_reserve_pool, decode_whirlpool,
    mint_well_formed,
};
use crate::price::{
    reserve_price_scaled, sqrt_price_scaled, price_from_reserves, price_from_sqrt_price,
};

verus! {

broadcast use vstd::string::to_string_from_display_ensures_for_str;

/// The protocol a quote came from.
#[derive(Clone, Copy, Debug, PartialEq, Eq, Hash, Structural)]
pub enum DexKind {
    Meteora,
    Orca,
}

/// Why a quote attempt produced no price even though the transport
/// succeeded.
#[derive(Clone, Copy, Debug, PartialEq, Eq, Structural)]
pub enum QuoteError {
    /// Accounts were returned, but none decoded as a valid pool.
    NoValidPool,
    /// The asset-metadata lookup was malformed or missing.
    DecimalsUnavailable,
}

/// One byte-range equality filter: the account's bytes at `offset`
/// must equal `bytes`.
pub struct MemcmpFilter {
    pub offset: usize,
    pub bytes: Vec<u8>,
}

/// An on-chain pool query: an exact account size and the byte-range
/// equality filters to match.
pub struct FilterSpec {
    pub data_size: u64,
    pub memcmps: Vec<MemcmpFilter>,
}

/// The reserve-pair protocol adapter, configured with its on-chain
/// program address.
#[derive(Clone)]
pub struct MeteoraDex {
    pub program_id: String,
}

/// The concentrated-liquidity protocol adapter.
#[derive(Clone)]
pub struct OrcaDex;

/// The closed set of configured protocols; dispatch is by variant.
#[derive(Clone)]
pub enum DexType {
    Meteora(MeteoraDex),
    Orca(OrcaDex),
}

/// The display name of a protocol.
pub open spec fn dex_name_spec(kind: DexKind) -> Seq<char> {
    match kind {
        DexKind::Meteora => "Meteora"@,
        DexKind::Orca => "Orca"@,
    }
}

/// Copies a byte vector.
fn copy_vec(data: &Vec<u8>) -> (r: Vec<u8>)
    ensures
        r@ == data@,
{
    let n = data.len();
    let mut r: Vec<u8> = Vec::new();
    let mut i: usize = 0;
    while i < n
        invariant
            n == data@.len(),
            i <= n,
            r@.len() == i,
            forall|j: int| 0 <= j < i ==> r@[j] == data@[j],
        decreases n - i,
    {
        r.push(data[i]);
        i += 1;
    }
    proof {
        assert(r@ =~= data@);
    }
    r
}

impl MeteoraDex {
    /// Builds the adapter, falling back to the protocol's well-known
    /// program address when none is configured.
    pub fn new(program_id: Option<&str>) -> (r: Self)
        ensures
            r.program_id@ == match program_id {
                Some(s) => s@,
                None => "LBUZKhRxPF3XUpBCjp4YzTKgLccjZhTSDM9YuVaPwxo"@,
            },
    {
        let s: &str = match program_id {
            Some(s) => s,
            None => "LBUZKhRxPF3XUpBCjp4YzTKgLccjZhTSDM9YuVaPwxo",
        };
        MeteoraDex { program_id: s.to_string() }
    }

    /// The on-chain query for this protocol's pools of an exact
    /// (token A, token B) pair: exact account size, token A's key right
    /// after the discriminator, token B's key right after it.
    pub fn pool_filters(&self, token_a: &Vec<u8>, token_b: &Vec<u8>) -> (r: FilterSpec)
        requires
            token_a@.len() == 32,
            token_b@.len() == 32,
        ensures
            r.data_size == RESERVE_POOL_ACCOUNT_SIZE,
            r.memcmps@.len() == 2,
            r.memcmps@[0].offset == 8 && r.memcmps@[0].bytes@ == token_a@,
            r.memcmps@[1].offset == 40 && r.memcmps@[1].bytes@ == token_b@,
    {
        let mut memcmps: Vec<MemcmpFilter> = Vec::new();
        memcmps.push(MemcmpFilter { offset: 8, bytes: copy_vec(token_a) });
        memcmps.push(MemcmpFilter { offset: 40, bytes: copy_vec(token_b) });
        FilterSpec { data_size: 396, memcmps }
    }
}

impl OrcaDex {
    /// Builds the adapter; it has no configuration.
    pub fn new() -> (r: Self) {
        OrcaDex
    }

    /// The on-chain query for this protocol's pools holding the token:
    /// exact account size and the token's key right after the
    /// discriminator.
    pub fn pool_filters(&self, token: &Vec<u8>) -> (r: FilterSpec)
        requires
            token@.len() == 32,
        ensures
            r.data_size == WHIRLPOOL_ACCOUNT_SIZE,
            r.memcmps@.len() == 1,
            r.memcmps@[0].offset == 8 && r.memcmps@[0].bytes@ == token@,
    {
        let mut memcmps: Vec<MemcmpFilter> = Vec::new();
        memcmps.push(MemcmpFilter { offset: 8, bytes: copy_vec(token) });
        FilterSpec { data_size: 1328, memcmps }
    }
}

impl DexType {
    /// The protocol variant of this adapter.
    pub fn kind(&self) -> (r: DexKind)
        ensures
            r == self.kind_spec(),
    {
        match self {
            DexType::Meteora(_) => DexKind::Meteora,
            DexType::Orca(_) => DexKind::Orca,
        }
    }

    /// The protocol variant, as a spec value.
    pub open spec fn kind_spec(&self) -> DexKind {
        match self {
            DexType::Meteora(_) => DexKind::Meteora,
            DexType::Orca(_) => DexKind::Orca,
        }
    }

    /// The protocol's display name.
    pub fn name(&self) -> (r: &'static str)
        ensures
            r@ == dex_name_spec(self.kind_spec()),
    {
        match self {
            DexType::Meteora(_) => "Meteora",
            DexType::Orca(_) => "Orca",
        }
    }
}

/// The reference assets a token is quoted against, in fixed priority
/// order: the primary stable asset first, then the primary network
/// asset. A quote uses the first reference with a pool.
pub fn reference_mints() -> (r: Vec<&'static str>)
    ensures
        r@.len() == 2,
        r@[0]@ == "EPjFWdd5AufqSSqeM2qN1xzybapC8G4wEGGkZwyTDt1v"@,
        r@[1]@ == "So111111111111111111111111111111111111111123"@,
{
    let mut r: Vec<&'static str> = Vec::new();
    r.push("EPjFWdd5AufqSSqeM2qN1xzybapC8G4wEGGkZwyTDt1v");
    r.push("So111111111111111111111111111111111111111123");
    r
}

/// Whether a raw account can decode as a reserve-pair pool.
pub open spec fn reserve_candidate(acc: Seq<u8>) -> bool {
    acc.len() >= RESERVE_POOL_ACCOUNT_SIZE
}

/// The total liquidity of a reserve-pair pool account: the saturating
/// sum of its two reserves.
pub open spec fn reserve_liq_of(acc: Seq<u8>) -> nat {
    let sum = le_val(acc.subrange(136, 144)) + le_val(acc.subrange(144, 152));
    if sum > 0xffffffffffffffff {
        0xffffffffffffffff as nat
    } else {
        sum
    }
}

/// Whether a raw account can decode as a whirlpool.
pub open spec fn whirlpool_candidate(acc: Seq<u8>) -> bool {
    acc.len() >= WHIRLPOOL_ACCOUNT_SIZE
}

/// The liquidity field of a whirlpool account.
pub open spec fn whirlpool_liq_of(acc: Seq<u8>) -> nat {
    le_val(acc.subrange(1224, 1240))
}

/// The best reserve-pair pool among the first `k` accounts: the
/// decodable candidate of greatest total liquidity, first seen winning
/// ties.
pub open spec fn best_reserve_upto(accounts: Seq<Vec<u8>>, k: int) -> Option<int>
    decreases k,
{
    if k <= 0 {
        None
    } else {
        let prev = best_reserve_upto(accounts, k - 1);
        if !reserve_candidate(accounts[k - 1]@) {
            prev
        } else {
            match prev {
                None => Some(k - 1),
                Some(i) => if reserve_liq_of(accounts[k - 1]@) > reserve_liq_of(accounts[i]@) {
                    Some(k - 1)
                } else {
                    Some(i)
                },
            }
        }
    }
}

/// The best whirlpool among the first `k` accounts: the decodable
/// candidate of greatest liquidity, first seen winning ties.
pub open spec fn best_whirlpool_upto(accounts: Seq<Vec<u8>>, k: int) -> Option<int>
    decreases k,
{
    if k <= 0 {
        None
    } else {
        let prev = best_whirlpool_upto(accounts, k - 1);
        if !whirlpool_candidate(accounts[k - 1]@) {
            prev
        } else {
            match prev {
                None => Some(k - 1),
                Some(i) => if whirlpool_liq_of(accounts[k - 1]@) > whirlpool_liq_of(accounts[i]@) {
                    Some(k - 1)
                } else {
                    Some(i)
                },
            }
        }
    }
}

/// There is a best whirlpool among the first `k` accounts exactly when
/// one of them is a candidate, and it is one of them.
pub proof fn lemma_best_whirlpool_exists(accounts: Seq<Vec<u8>>, k: int)
    ensures
        best_whirlpool_upto(accounts, k) is Some <==> exists|j: int|
            0 <= j < k && #[trigger] whirlpool_candidate(accounts[j]@),
        best_whirlpool_upto(accounts, k) matches Some(i) ==> 0 <= i < k
            && whirlpool_candidate(accounts[i]@),
    decreases k,
{
    if k > 0 {
        lemma_best_whirlpool_exists(accounts, k - 1);
        if whirlpool_candidate(accounts[k - 1]@) {
            assert(0 <= k - 1 < k && whirlpool_candidate(accounts[k - 1]@));
        }
    }
}

/// Selects, among the returned reserve-pair accounts, the decodable
/// candidate with the greatest total liquidity, first seen winning
/// ties. No accounts at all is an absent quote; accounts of which none
/// decodes is a `NoValidPool` failure, never a fabricated pool.
pub fn select_reserve_pool(accounts: &Vec<Vec<u8>>) -> (r: Result<Option<usize>, QuoteError>)
    ensures
        r matches Ok(Some(i)) ==> best_reserve_upto(accounts@, accounts@.len() as int) == Some(
            i as int,
        ),
        accounts@.len() == 0 ==> r == Result::<Option<usize>, QuoteError>::Ok(None),
        accounts@.len() > 0 && (forall|j: int|
            0 <= j < accounts@.len() ==> !reserve_candidate(accounts@[j]@)) ==> r == Result::<
            Option<usize>,
            QuoteError,
        >::Err(QuoteError::NoValidPool),
        r matches Ok(Some(i)) ==> {
            &&& i < accounts@.len()
            &&& reserve_candidate(accounts@[i as int]@)
            &&& forall|j: int|
                0 <= j < accounts@.len() && reserve_candidate(accounts@[j]@) ==> reserve_liq_of(
                    accounts@[j]@,
                ) <= reserve_liq_of(accounts@[i as int]@)
            &&& forall|j: int|
                0 <= j < i && reserve_candidate(accounts@[j]@) ==> reserve_liq_of(accounts@[j]@)
                    < reserve_liq_of(accounts@[i as int]@)
        },
        r matches Ok(Some(i)) <==> exists|j: int|
            0 <= j < accounts@.len() && #[trigger] reserve_candidate(accounts@[j]@),
{
    let n = accounts.len();
    let mut best: Option<usize> = None;
    let mut best_liq: u64 = 0;
    let mut j: usize = 0;
    while j < n
        invariant
            n == accounts@.len(),
            j <= n,
            best_reserve_upto(accounts@, j as int) == match best {
                Some(bi) => Some(bi as int),
                None => None,
            },
            best is None ==> forall|t: int| 0 <= t < j ==> !reserve_candidate(accounts@[t]@),
            best matches Some(bi) ==> {
                &&& bi < j
                &&& reserve_candidate(accounts@[bi as int]@)
                &&& best_liq == reserve_liq_of(accounts@[bi as int]@)
                &&& forall|t: int|
                    0 <= t < j && reserve_candidate(accounts@[t]@) ==> reserve_liq_of(
                        accounts@[t]@,
                    ) <= best_liq
                &&& forall|t: int|
                    0 <= t < bi && reserve_candidate(accounts@[t]@) ==> reserve_liq_of(
                        accounts@[t]@,
                    ) < best_liq
            },
        decreases n - j,
    {
        let acc = &accounts[j];
        if acc.len() >= RESERVE_POOL_ACCOUNT_SIZE {
            let ra = crate::codec::read_u64_le(acc, 136);
            let rb = crate::codec::read_u64_le(acc, 144);
            let sum128: u128 = (ra as u128) + (rb as u128);
            let liq: u64 = if sum128 > 0xffffffffffffffff {
                0xffffffffffffffff
            } else {
                sum128 as u64
            };
            proof {
                assert(liq == reserve_liq_of(accounts@[j as int]@));
            }
            match best {
                None => {
                    best = Some(j);
                    best_liq = liq;
                },
                Some(_) => {
                    if liq > best_liq {
                        best = Some(j);
                        best_liq = liq;
                    }
                },
            }
        }
        j += 1;
    }
    match best {
        Some(i) => Ok(Some(i)),
        None => {
            if n == 0 {
                Ok(None)
            } else {
                Err(QuoteError::NoValidPool)
            }
        },
    }
}

/// Selects, among the returned whirlpool accounts, the decodable
/// candidate with the greatest liquidity, first seen winning ties.
/// No accounts at all is an absent quote; accounts of which none
/// decodes is a `NoValidPool` failure.
pub fn select_whirlpool(accounts: &Vec<Vec<u8>>) -> (r: Result<Option<usize>, QuoteError>)
    ensures
        r matches Ok(Some(i)) ==> best_whirlpool_upto(accounts@, accounts@.len() as int) == Some(
            i as int,
        ),
        accounts@.len() == 0 ==> r == Result::<Option<usize>, QuoteError>::Ok(None),
        accounts@.len() > 0 && (forall|j: int|
            0 <= j < accounts@.len() ==> !whirlpool_candidate(accounts@[j]@)) ==> r == Result::<
            Option<usize>,
            QuoteError,
        >::Err(QuoteError::NoValidPool),
        r matches Ok(Some(i)) ==> {
            &&& i < accounts@.len()
            &&& whirlpool_candidate(accounts@[i as int]@)
            &&& forall|j: int|
                0 <= j < accounts@.len() && whirlpool_candidate(accounts@[j]@) ==> whirlpool_liq_of(
                    accounts@[j]@,
                ) <= whirlpool_liq_of(accounts@[i as int]@)
            &&& forall|j: int|
                0 <= j < i && whirlpool_candidate(accounts@[j]@) ==> whirlpool_liq_of(
                    accounts@[j]@,
                ) < whirlpool_liq_of(accounts@[i as int]@)
        },
        r matches Ok(Some(i)) <==> exists|j: int|
            0 <= j < accounts@.len() && #[trigger] whirlpool_candidate(accounts@[j]@),
{
    let n = accounts.len();
    let mut best: Option<usize> = None;
    let mut best_liq: u128 = 0;
    let mut j: usize = 0;
    while j < n
        invariant
            n == accounts@.len(),
            j <= n,
            best_whirlpool_upto(accounts@, j as int) == match best {
                Some(bi) => Some(bi as int),
                None => None,
            },
            best is None ==> forall|t: int| 0 <= t < j ==> !whirlpool_candidate(accounts@[t]@),
            best matches Some(bi) ==> {
                &&& bi < j
                &&& whirlpool_candidate(accounts@[bi as int]@)
                &&& best_liq == whirlpool_liq_of(accounts@[bi as int]@)
                &&& forall|t: int|
                    0 <= t < j && whirlpool_candidate(accounts@[t]@) ==> whirlpool_liq_of(
                        accounts@[t]@,
                    ) <= best_liq
                &&& forall|t: int|
                    0 <= t < bi && whirlpool_candidate(accounts@[t]@) ==> whirlpool_liq_of(
                        accounts@[t]@,
                    ) < best_liq
            },
        decreases n - j,
    {
        let acc = &accounts[j];
        if acc.len() >= WHIRLPOOL_ACCOUNT_SIZE {
            let liq: u128 = crate::codec::read_u128_le(acc, 1224);
            match best {
                None => {
                    best = Some(j);
                    best_liq = liq;
                },
                Some(_) => {
                    if liq > best_liq {
                        best = Some(j);
                        best_liq = liq;
                    }
                },
            }
        }
        j += 1;
    }
    match best {
        Some(i) => Ok(Some(i)),
        None => {
            if n == 0 {
                Ok(None)
            } else {
                Err(QuoteError::NoValidPool)
            }
        },
    }
}

/// Whether an asset-metadata account decodes: long enough and with
/// valid tags.
pub open spec fn mint_ok(s: Seq<u8>) -> bool {
    s.len() >= MINT_ACCOUNT_SIZE && mint_well_formed(s)
}

/// The decimal-precision byte of an asset-metadata account.
pub open spec fn mint_dec(s: Seq<u8>) -> u8 {
    s[44]
}

/// Derives the quote of a selected reserve-pair pool given the raw
/// asset-metadata accounts of its two tokens. A malformed metadata
/// account fails the quote with `DecimalsUnavailable`; a zero
/// `reserve_a` or a price beyond the fixed-point range yields no quote
/// rather than a fabricated one.
pub fn quote_from_pool(pool: &ReservePool, mint_a_data: &Vec<u8>, mint_b_data: &Vec<u8>) -> (r:
    Result<Option<u128>, QuoteError>)
    ensures
        !(mint_ok(mint_a_data@) && mint_ok(mint_b_data@)) ==> r == Result::<
            Option<u128>,
            QuoteError,
        >::Err(QuoteError::DecimalsUnavailable),
        mint_ok(mint_a_data@) && mint_ok(mint_b_data@) ==> {
            let price = reserve_price_scaled(
                pool.reserve_a as nat,
                pool.reserve_b as nat,
                mint_dec(mint_a_data@) as nat,
                mint_dec(mint_b_data@) as nat,
            );
            if pool.reserve_a > 0 && price <= u128::MAX {
                r == Result::<Option<u128>, QuoteError>::Ok(Some(price as u128))
            } else {
                r == Result::<Option<u128>, QuoteError>::Ok(None)
            }
        },
{
    let da = match decode_mint_decimals(mint_a_data) {
        Ok(d) => d,
        Err(_) => {
            return Err(QuoteError::DecimalsUnavailable);
        },
    };
    let db = match decode_mint_decimals(mint_b_data) {
        Ok(d) => d,
        Err(_) => {
            return Err(QuoteError::DecimalsUnavailable);
        },
    };
    Ok(price_from_reserves(pool.reserve_a, pool.reserve_b, da, db))
}

/// The full quote decision of the reserve-pair adapter up to the
/// asset-metadata lookup: selects the best pool among the returned
/// accounts and decodes it. The metadata lookup happens between this
/// step and `quote_from_pool`.
pub fn select_pool_state(accounts: &Vec<Vec<u8>>) -> (r: Result<Option<ReservePool>, QuoteError>)
    ensures
        accounts@.len() == 0 ==> (r matches Ok(o) && o is None),
        accounts@.len() > 0 && (forall|j: int|
            0 <= j < accounts@.len() ==> !reserve_candidate(accounts@[j]@)) ==> r == Result::<
            Option<ReservePool>,
            QuoteError,
        >::Err(QuoteError::NoValidPool),
        r matches Ok(Some(p)) ==> best_reserve_upto(accounts@, accounts@.len() as int) matches Some(
            i,
        ) && {
            let acc = accounts@[i]@;
            &&& p.reserve_a == le_val(acc.subrange(136, 144))
            &&& p.reserve_b == le_val(acc.subrange(144, 152))
            &&& p.token_mint_a@ == acc.subrange(8, 40)
            &&& p.token_mint_b@ == acc.subrange(40, 72)
        },
        (r matches Ok(o) && o is Some) <==> (exists|j: int|
            0 <= j < accounts@.len() && #[trigger] reserve_candidate(accounts@[j]@)),
{
    match select_reserve_pool(accounts) {
        Ok(Some(i)) => match decode_reserve_pool(&accounts[i]) {
            Ok(pool) => Ok(Some(pool)),
            Err(_) => {
                proof {
                    assert(false);
                }
                Err(QuoteError::NoValidPool)
            },
        },
        Ok(None) => Ok(None),
        Err(e) => Err(e),
    }
}

/// The full quote decision of the concentrated-liquidity adapter:
/// selects the best pool among the returned accounts and derives its
/// price. All inputs it needs are in the pool account itself, so no
/// lookup interrupts the decision.
pub fn quote_from_accounts(accounts: &Vec<Vec<u8>>) -> (r: Result<Option<u128>, QuoteError>)
    ensures
        accounts@.len() == 0 ==> r == Result::<Option<u128>, QuoteError>::Ok(None),
        accounts@.len() > 0 && (forall|j: int|
            0 <= j < accounts@.len() ==> !whirlpool_candidate(accounts@[j]@)) ==> r == Result::<
            Option<u128>,
            QuoteError,
        >::Err(QuoteError::NoValidPool),
        best_whirlpool_upto(accounts@, accounts@.len() as int) matches Some(i) ==> {
            let acc = accounts@[i]@;
            let price = sqrt_price_scaled(
                le_val(acc.subrange(1240, 1256)),
                acc[1264] as nat,
                acc[1265] as nat,
            );
            if price <= u128::MAX {
                r == Result::<Option<u128>, QuoteError>::Ok(Some(price as u128))
            } else {
                r == Result::<Option<u128>, QuoteError>::Ok(None)
            }
        },
{
    proof {
        lemma_best_whirlpool_exists(accounts@, accounts@.len() as int);
    }
    match select_whirlpool(accounts) {
        Ok(Some(i)) => match decode_whirlpool(&accounts[i]) {
            Ok(state) => Ok(quote_from_whirlpool(&state)),
            Err(_) => {
                proof {
                    assert(false);
                }
                Err(QuoteError::NoValidPool)
            },
        },
        Ok(None) => Ok(None),
        Err(e) => Err(e),
    }
}

/// Derives the quote of a selected whirlpool from its decoded state.
/// A price beyond the fixed-point range yields no quote.
pub fn quote_from_whirlpool(state: &WhirlpoolState) -> (r: Option<u128>)
    ensures
        ({
            let price = sqrt_price_scaled(
                state.sqrt_price as nat,
                state.decimals_a as nat,
                state.decimals_b as nat,
            );
            if price <= u128::MAX {
                r == Some(price as u128)
            } else {
                r is None
            }
        }),
{
    price_from_sqrt_price(state.sqrt_price, state.decimals_a, state.decimals_b)
}

} // verus!
