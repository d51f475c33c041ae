//! A concrete pool store: one arena of pool snapshots keyed by the
//! canonical form of the token pair.
//!
//! Storing a single snapshot per unordered pair is what makes reads and
//! writes through either token order reach the same pool state; keeping
//! two independently keyed copies would let them diverge after a
//! mutation.

use vstd::prelude::*;
use crate::amm_logic::{
    calculate_lp_tokens_minted, calculate_swap_out, min_int, spec_lp_share, spec_swap_out,
};
use crate::pool_provider::{canonical_pair, canonicalize, PoolProvider};
use crate::types::{contains_token, AlkaneId, PoolReserves, ZapError};

verus! {

/// The storage key of a snapshot: its own token pair.
pub open spec fn pool_key(p: PoolReserves) -> (AlkaneId, AlkaneId) {
    (p.token_a, p.token_b)
}

/// A stored snapshot is canonically ordered over distinct tokens and
/// carries a fee below 100%.
pub open spec fn wf_pool(p: PoolReserves) -> bool {
    &&& p.token_a.spec_le(p.token_b)
    &&& p.token_a != p.token_b
    &&& p.fee_rate < 10000
}

/// The map view of a sequence of snapshots, later entries winning.
pub open spec fn map_of(s: Seq<PoolReserves>) -> Map<(AlkaneId, AlkaneId), PoolReserves>
    decreases s.len(),
{
    if s.len() == 0 {
        Map::<(AlkaneId, AlkaneId), PoolReserves>::empty()
    } else {
        map_of(s.drop_last()).insert(pool_key(s.last()), s.last())
    }
}

/// No two entries share a storage key.
pub open spec fn unique_keys(s: Seq<PoolReserves>) -> bool {
    forall|i: int, j: int|
        0 <= i < j < s.len() ==> pool_key(#[trigger] s[i]) != pool_key(#[trigger] s[j])
}

/// A key is in the map view exactly when some entry carries it.
proof fn lemma_map_of_contains(s: Seq<PoolReserves>, k: (AlkaneId, AlkaneId))
    ensures
        map_of(s).contains_key(k) <==> exists|i: int| 0 <= i < s.len() && pool_key(#[trigger] s[i]) == k,
    decreases s.len(),
{
    if s.len() == 0 {
    } else {
        lemma_map_of_contains(s.drop_last(), k);
        if k == pool_key(s.last()) {
            assert(pool_key(s[s.len() - 1]) == k);
        } else {
            if map_of(s).contains_key(k) {
                let i = choose|i: int|
                    0 <= i < s.drop_last().len() && pool_key(#[trigger] s.drop_last()[i]) == k;
                assert(pool_key(s[i]) == k);
            }
            if exists|i: int| 0 <= i < s.len() && pool_key(#[trigger] s[i]) == k {
                let i = choose|i: int| 0 <= i < s.len() && pool_key(#[trigger] s[i]) == k;
                assert(i < s.len() - 1);
                assert(pool_key(s.drop_last()[i]) == k);
            }
        }
    }
}

/// With unique keys, the view maps each entry's key to that entry.
proof fn lemma_map_of_index(s: Seq<PoolReserves>, i: int)
    requires
        unique_keys(s),
        0 <= i < s.len(),
    ensures
        map_of(s).contains_key(pool_key(s[i])),
        map_of(s)[pool_key(s[i])] == s[i],
    decreases s.len(),
{
    if i == s.len() - 1 {
    } else {
        assert(unique_keys(s.drop_last())) by {
            assert(forall|x: int, y: int|
                0 <= x < y < s.drop_last().len() ==> pool_key(#[trigger] s.drop_last()[x])
                    != pool_key(#[trigger] s.drop_last()[y])) by {
                assert(forall|x: int|
                    0 <= x < s.drop_last().len() ==> #[trigger] s.drop_last()[x] == s[x]);
            }
        }
        lemma_map_of_index(s.drop_last(), i);
        assert(s.drop_last()[i] == s[i]);
        assert(pool_key(s[i]) != pool_key(s.last())) by {
            assert(s.last() == s[s.len() - 1]);
        }
    }
}

/// Replacing the entry at `i` by a snapshot with the same key updates the
/// view at exactly that key.
proof fn lemma_map_of_update(s: Seq<PoolReserves>, i: int, p: PoolReserves)
    requires
        unique_keys(s),
        0 <= i < s.len(),
        pool_key(p) == pool_key(s[i]),
    ensures
        map_of(s.update(i, p)) == map_of(s).insert(pool_key(p), p),
    decreases s.len(),
{
    let t = s.update(i, p);
    if i == s.len() - 1 {
        assert(t.drop_last() =~= s.drop_last());
        assert(t.last() == p);
        assert(map_of(t) == map_of(s.drop_last()).insert(pool_key(p), p));
        assert(map_of(s).insert(pool_key(p), p) =~= map_of(s.drop_last()).insert(
            pool_key(p),
            p,
        )) by {
            assert(pool_key(s.last()) == pool_key(p));
        }
    } else {
        assert(unique_keys(s.drop_last())) by {
            assert(forall|x: int|
                0 <= x < s.drop_last().len() ==> #[trigger] s.drop_last()[x] == s[x]);
        }
        assert(t.drop_last() =~= s.drop_last().update(i, p));
        assert(t.last() == s.last());
        lemma_map_of_update(s.drop_last(), i, p);
        assert(s.drop_last()[i] == s[i]);
        assert(map_of(t) == map_of(s.drop_last()).insert(pool_key(p), p).insert(
            pool_key(s.last()),
            s.last(),
        ));
        assert(pool_key(s.last()) != pool_key(p)) by {
            assert(s.last() == s[s.len() - 1]);
        }
        assert(map_of(s.drop_last()).insert(pool_key(p), p).insert(pool_key(s.last()), s.last())
            =~= map_of(s.drop_last()).insert(pool_key(s.last()), s.last()).insert(
            pool_key(p),
            p,
        ));
    }
}

/// Appending an entry inserts its key into the view.
proof fn lemma_map_of_push(s: Seq<PoolReserves>, p: PoolReserves)
    ensures
        map_of(s.push(p)) == map_of(s).insert(pool_key(p), p),
{
    assert(s.push(p).drop_last() =~= s);
    assert(s.push(p).last() == p);
}

/// Find the entry carrying the canonical key `(ca, cb)`.
fn find_pool_index(pools: &Vec<PoolReserves>, ca: AlkaneId, cb: AlkaneId) -> (r: Option<usize>)
    ensures
        match r {
            Some(i) => i < pools@.len() && pool_key(pools@[i as int]) == (ca, cb),
            None => forall|j: int| 0 <= j < pools@.len() ==> pool_key(#[trigger] pools@[j]) != (ca, cb),
        },
{
    let mut i: usize = 0;
    while i < pools.len()
        invariant
            0 <= i <= pools@.len(),
            forall|j: int| 0 <= j < i ==> pool_key(#[trigger] pools@[j]) != (ca, cb),
        decreases pools@.len() - i,
    {
        let p = &pools[i];
        if p.token_a == ca && p.token_b == cb {
            return Some(i);
        }
        i += 1;
    }
    None
}

/// A canonical-key pool arena.
pub struct PoolGraph {
    pools: Vec<PoolReserves>,
}

impl PoolGraph {
    #[verifier::type_invariant]
    spec fn wf(&self) -> bool {
        &&& forall|i: int| 0 <= i < self.pools@.len() ==> wf_pool(#[trigger] self.pools@[i])
        &&& unique_keys(self.pools@)
    }

    /// An empty store.
    pub fn new() -> (r: PoolGraph)
        ensures
            r.pools() == Map::<(AlkaneId, AlkaneId), PoolReserves>::empty(),
    {
        let r = PoolGraph { pools: Vec::new() };
        proof {
            assert(r.pools@.len() == 0);
        }
        r
    }

    /// An identical copy of the store.
    pub fn snapshot(&self) -> (r: PoolGraph)
        ensures
            r.pools() == self.pools(),
    {
        proof {
            use_type_invariant(&*self);
        }
        let mut copied: Vec<PoolReserves> = Vec::new();
        let mut i: usize = 0;
        while i < self.pools.len()
            invariant
                0 <= i <= self.pools@.len(),
                copied@ =~= self.pools@.subrange(0, i as int),
            decreases self.pools@.len() - i,
        {
            copied.push(self.pools[i]);
            proof {
                assert(copied@ =~= self.pools@.subrange(0, i + 1));
            }
            i += 1;
        }
        proof {
            assert(copied@ =~= self.pools@);
        }
        PoolGraph { pools: copied }
    }
}

impl PoolProvider for PoolGraph {
    closed spec fn pools(&self) -> Map<(AlkaneId, AlkaneId), PoolReserves> {
        map_of(self.pools@)
    }

    fn get_pool_reserves(&self, token_a: AlkaneId, token_b: AlkaneId) -> (r: Result<
        PoolReserves,
        ZapError,
    >) {
        proof {
            use_type_invariant(&*self);
        }
        let (ca, cb) = canonicalize(token_a, token_b);
        match find_pool_index(&self.pools, ca, cb) {
            Some(i) => {
                proof {
                    lemma_map_of_index(self.pools@, i as int);
                }
                Ok(self.pools[i])
            },
            None => {
                proof {
                    lemma_map_of_contains(self.pools@, (ca, cb));
                }
                Err(ZapError::NotFound)
            },
        }
    }

    fn get_connected_tokens(&self, token: AlkaneId) -> (r: Result<Vec<AlkaneId>, ZapError>) {
        proof {
            use_type_invariant(&*self);
            lemma_map_of_contains_all(self.pools@);
        }
        let mut out: Vec<AlkaneId> = Vec::new();
        let mut i: usize = 0;
        while i < self.pools.len()
            invariant
                self.wf(),
                0 <= i <= self.pools@.len(),
                out@.no_duplicates(),
                forall|x: AlkaneId|
                    out@.contains(x) <==> (x != token && exists|j: int|
                        0 <= j < i && pool_key(#[trigger] self.pools@[j]) == canonical_pair(
                            token,
                            x,
                        )),
            decreases self.pools@.len() - i,
        {
            let p = &self.pools[i];
            let ghost prev = out@;
            let candidate: Option<AlkaneId> = if p.token_a == token {
                Some(p.token_b)
            } else if p.token_b == token {
                Some(p.token_a)
            } else {
                None
            };
            match candidate {
                Some(x) => {
                    proof {
                        assert(wf_pool(self.pools@[i as int]));
                        assert(canonical_pair(token, x) == pool_key(self.pools@[i as int]));
                        assert(x != token);
                    }
                    if !contains_token(&out, x) {
                        out.push(x);
                        proof {
                            broadcast use vstd::seq_lib::lemma_seq_contains_after_push;

                            assert(out@.no_duplicates()) by {
                                assert(forall|a: int, b: int|
                                    0 <= a < b < out@.len() ==> out@[a] != out@[b]) by {
                                    assert(forall|a: int|
                                        0 <= a < prev.len() ==> #[trigger] out@[a] == prev[a]);
                                    assert(out@[out@.len() - 1] == x);
                                    assert(!prev.contains(x));
                                }
                            }
                        }
                    }
                    proof {
                        broadcast use vstd::seq_lib::lemma_seq_contains_after_push;

                        assert forall|x2: AlkaneId| out@.contains(x2) <==> (x2 != token
                            && exists|j: int|
                            0 <= j < i + 1 && pool_key(#[trigger] self.pools@[j])
                                == canonical_pair(token, x2)) by {
                            if x2 == x {
                                assert(out@.contains(x2));
                                assert(pool_key(self.pools@[i as int]) == canonical_pair(
                                    token,
                                    x2,
                                ));
                            } else {
                                assert(out@.contains(x2) == prev.contains(x2));
                                if exists|j: int|
                                    0 <= j < i + 1 && pool_key(#[trigger] self.pools@[j])
                                        == canonical_pair(token, x2) {
                                    let j = choose|j: int|
                                        0 <= j < i + 1 && pool_key(#[trigger] self.pools@[j])
                                            == canonical_pair(token, x2);
                                    if j == i {
                                        assert(canonical_pair(token, x2) == canonical_pair(
                                            token,
                                            x,
                                        ));
                                        assert(x2 == x);  // impossible in this branch
                                    }
                                }
                            }
                        }
                    }
                },
                None => {
                    proof {
                        assert forall|x2: AlkaneId| out@.contains(x2) <==> (x2 != token
                            && exists|j: int|
                            0 <= j < i + 1 && pool_key(#[trigger] self.pools@[j])
                                == canonical_pair(token, x2)) by {
                            if exists|j: int|
                                0 <= j < i + 1 && pool_key(#[trigger] self.pools@[j])
                                    == canonical_pair(token, x2) {
                                let j = choose|j: int|
                                    0 <= j < i + 1 && pool_key(#[trigger] self.pools@[j])
                                        == canonical_pair(token, x2);
                                assert(j != i);
                            }
                        }
                    }
                },
            }
            i += 1;
        }
        proof {
            assert(forall|x: AlkaneId|
                out@.contains(x) <==> (x != token && map_of(self.pools@).contains_key(
                    #[trigger] canonical_pair(token, x),
                )));
        }
        Ok(out)
    }
}

/// A new pool snapshot in canonical orientation: the reserves follow
/// their tokens when the pair has to be flipped.
pub open spec fn oriented_pool(
    token_a: AlkaneId,
    token_b: AlkaneId,
    reserve_a: u128,
    reserve_b: u128,
    total_supply: u128,
    fee_rate: u128,
) -> PoolReserves {
    if token_a.spec_le(token_b) {
        PoolReserves { token_a, token_b, reserve_a, reserve_b, total_supply, fee_rate }
    } else {
        PoolReserves {
            token_a: token_b,
            token_b: token_a,
            reserve_a: reserve_b,
            reserve_b: reserve_a,
            total_supply,
            fee_rate,
        }
    }
}

/// A stored snapshot with its reserves and supply replaced; `reserve_a`
/// is the reserve of `token_a` as the caller named it.
pub open spec fn reoriented_update(
    p: PoolReserves,
    token_a: AlkaneId,
    reserve_a: u128,
    reserve_b: u128,
    total_supply: u128,
) -> PoolReserves {
    if token_a == p.token_a {
        PoolReserves {
            token_a: p.token_a,
            token_b: p.token_b,
            reserve_a,
            reserve_b,
            total_supply,
            fee_rate: p.fee_rate,
        }
    } else {
        PoolReserves {
            token_a: p.token_a,
            token_b: p.token_b,
            reserve_a: reserve_b,
            reserve_b: reserve_a,
            total_supply,
            fee_rate: p.fee_rate,
        }
    }
}

/// Addition clamped to the 128-bit range.
pub open spec fn sat_add(a: int, b: int) -> int {
    if a + b > u128::MAX {
        u128::MAX as int
    } else {
        a + b
    }
}

/// The reserve of the side of `token`, which must be one of the pool's
/// tokens.
pub open spec fn reserve_toward(p: PoolReserves, token: AlkaneId) -> u128 {
    if token == p.token_a {
        p.reserve_a
    } else {
        p.reserve_b
    }
}

/// The reserve of the side opposite `token`.
pub open spec fn reserve_against(p: PoolReserves, token: AlkaneId) -> u128 {
    if token == p.token_a {
        p.reserve_b
    } else {
        p.reserve_a
    }
}

/// A stored snapshot after a swap that paid `amount_in` of `token_in`
/// into the pool and took `out` of the other side.
pub open spec fn swapped_pool(
    p: PoolReserves,
    token_in: AlkaneId,
    amount_in: u128,
    out: u128,
) -> PoolReserves {
    if token_in == p.token_a {
        PoolReserves {
            token_a: p.token_a,
            token_b: p.token_b,
            reserve_a: sat_add(p.reserve_a as int, amount_in as int) as u128,
            reserve_b: (p.reserve_b - out) as u128,
            total_supply: p.total_supply,
            fee_rate: p.fee_rate,
        }
    } else {
        PoolReserves {
            token_a: p.token_a,
            token_b: p.token_b,
            reserve_a: (p.reserve_a - out) as u128,
            reserve_b: sat_add(p.reserve_b as int, amount_in as int) as u128,
            total_supply: p.total_supply,
            fee_rate: p.fee_rate,
        }
    }
}

/// A stored snapshot after a deposit of `amount_a` toward `token_a`'s
/// side (as the caller named the pair) and `amount_b` toward the other,
/// minting `lp` new LP tokens.
pub open spec fn deposited_pool(
    p: PoolReserves,
    token_a: AlkaneId,
    amount_a: u128,
    amount_b: u128,
    lp: u128,
) -> PoolReserves {
    let (add_a, add_b): (u128, u128) = if token_a == p.token_a {
        (amount_a, amount_b)
    } else {
        (amount_b, amount_a)
    };
    PoolReserves {
        token_a: p.token_a,
        token_b: p.token_b,
        reserve_a: sat_add(p.reserve_a as int, add_a as int) as u128,
        reserve_b: sat_add(p.reserve_b as int, add_b as int) as u128,
        total_supply: sat_add(p.total_supply as int, lp as int) as u128,
        fee_rate: p.fee_rate,
    }
}

/// Saturating executable addition.
fn sat_add_exec(a: u128, b: u128) -> (r: u128)
    ensures
        r == sat_add(a as int, b as int),
{
    if b > u128::MAX - a {
        u128::MAX
    } else {
        a + b
    }
}

impl PoolGraph {
    /// Insert or overwrite the pool for the unordered pair `{token_a,
    /// token_b}`, storing it under the canonical key.
    ///
    /// Rejects a degenerate pair or a fee of 100% or more, leaving the
    /// store unchanged.
    pub fn add_pool(
        &mut self,
        token_a: AlkaneId,
        token_b: AlkaneId,
        reserve_a: u128,
        reserve_b: u128,
        total_supply: u128,
        fee_rate: u128,
    ) -> (r: Result<(), ZapError>)
        ensures
            match r {
                Ok(()) => token_a != token_b && fee_rate < 10000 && final (self).pools() == old(
                    self,
                ).pools().insert(
                    canonical_pair(token_a, token_b),
                    oriented_pool(token_a, token_b, reserve_a, reserve_b, total_supply, fee_rate),
                ),
                Err(ZapError::InvalidInput) => (token_a == token_b || fee_rate >= 10000) && final (
                self).pools() == old(self).pools(),
                Err(_) => false,
            },
    {
        proof {
            use_type_invariant(&*self);
        }
        if token_a == token_b || fee_rate >= 10000 {
            return Err(ZapError::InvalidInput);
        }
        let p = if token_a.le(&token_b) {
            PoolReserves::new(token_a, token_b, reserve_a, reserve_b, total_supply, fee_rate)
        } else {
            PoolReserves::new(token_b, token_a, reserve_b, reserve_a, total_supply, fee_rate)
        };
        assert(p == oriented_pool(token_a, token_b, reserve_a, reserve_b, total_supply, fee_rate));
        assert(wf_pool(p));
        assert(pool_key(p) == canonical_pair(token_a, token_b));
        let mut pools: Vec<PoolReserves> = Vec::new();
        core::mem::swap(&mut pools, &mut self.pools);
        match find_pool_index(&pools, p.token_a, p.token_b) {
            Some(idx) => {
                proof {
                    lemma_map_of_update(pools@, idx as int, p);
                }
                pools[idx] = p;
            },
            None => {
                proof {
                    lemma_map_of_push(pools@, p);
                }
                pools.push(p);
            },
        }
        self.pools = pools;
        Ok(())
    }

    /// Replace the reserves and total supply of the pool for the pair,
    /// reaching the same stored pool whichever way round the caller names
    /// the tokens; `reserve_a` belongs to `token_a` as named.
    pub fn update_pool_reserves(
        &mut self,
        token_a: AlkaneId,
        token_b: AlkaneId,
        reserve_a: u128,
        reserve_b: u128,
        total_supply: u128,
    ) -> (r: Result<(), ZapError>)
        ensures
            match r {
                Ok(()) => {
                    let key = canonical_pair(token_a, token_b);
                    &&& old(self).pools().contains_key(key)
                    &&& final (self).pools() == old(self).pools().insert(
                        key,
                        reoriented_update(
                            old(self).pools()[key],
                            token_a,
                            reserve_a,
                            reserve_b,
                            total_supply,
                        ),
                    )
                },
                Err(ZapError::NotFound) => !old(self).pools().contains_key(
                    canonical_pair(token_a, token_b),
                ) && final (self).pools() == old(self).pools(),
                Err(_) => false,
            },
    {
        proof {
            use_type_invariant(&*self);
        }
        let (ca, cb) = canonicalize(token_a, token_b);
        let mut pools: Vec<PoolReserves> = Vec::new();
        core::mem::swap(&mut pools, &mut self.pools);
        let r = match find_pool_index(&pools, ca, cb) {
            Some(idx) => {
                let p = pools[idx];
                proof {
                    lemma_map_of_index(pools@, idx as int);
                }
                let np = if token_a == p.token_a {
                    PoolReserves { reserve_a, reserve_b, total_supply, ..p }
                } else {
                    PoolReserves {
                        reserve_a: reserve_b,
                        reserve_b: reserve_a,
                        total_supply,
                        ..p
                    }
                };
                assert(np == reoriented_update(p, token_a, reserve_a, reserve_b, total_supply));
                proof {
                    lemma_map_of_update(pools@, idx as int, np);
                }
                pools[idx] = np;
                Ok(())
            },
            None => {
                proof {
                    lemma_map_of_contains(pools@, (ca, cb));
                }
                Err(ZapError::NotFound)
            },
        };
        self.pools = pools;
        r
    }

    /// Execute one swap against the stored pool for `{token_in,
    /// token_out}`: pay `amount_in` into the `token_in` side and take the
    /// exact constant-product output from the other side.
    ///
    /// On any failure the store is unchanged.
    pub fn simulate_swap(&mut self, token_in: AlkaneId, token_out: AlkaneId, amount_in: u128) -> (r:
        Result<u128, ZapError>)
        ensures
            match r {
                Ok(out) => {
                    let key = canonical_pair(token_in, token_out);
                    let p = old(self).pools()[key];
                    &&& old(self).pools().contains_key(key)
                    &&& amount_in > 0
                    &&& reserve_toward(p, token_in) > 0
                    &&& reserve_against(p, token_in) > 0
                    &&& out == spec_swap_out(
                        amount_in as int,
                        reserve_toward(p, token_in) as int,
                        reserve_against(p, token_in) as int,
                        p.fee_rate as int,
                    )
                    &&& out < reserve_against(p, token_in)
                    &&& final (self).pools() == old(self).pools().insert(
                        key,
                        swapped_pool(p, token_in, amount_in, out),
                    )
                    // The constant product never decreases while the paid-in
                    // side stays within range.
                    &&& (reserve_toward(p, token_in) + amount_in <= u128::MAX
                        ==> (swapped_pool(p, token_in, amount_in, out).reserve_a as int)
                        * (swapped_pool(p, token_in, amount_in, out).reserve_b as int)
                        >= p.reserve_a * p.reserve_b)
                },
                Err(e) => {
                    &&& final (self).pools() == old(self).pools()
                    &&& match e {
                        ZapError::NotFound => !old(self).pools().contains_key(
                            canonical_pair(token_in, token_out),
                        ),
                        ZapError::InvalidInput => old(self).pools().contains_key(
                            canonical_pair(token_in, token_out),
                        ) && amount_in == 0,
                        ZapError::InsufficientLiquidity => {
                            let p = old(self).pools()[canonical_pair(token_in, token_out)];
                            &&& old(self).pools().contains_key(
                                canonical_pair(token_in, token_out),
                            )
                            &&& amount_in > 0
                            &&& (reserve_toward(p, token_in) == 0 || reserve_against(p, token_in)
                                == 0)
                        },
                        _ => false,
                    }
                },
            },
    {
        proof {
            use_type_invariant(&*self);
        }
        let (ca, cb) = canonicalize(token_in, token_out);
        let mut pools: Vec<PoolReserves> = Vec::new();
        core::mem::swap(&mut pools, &mut self.pools);
        let r = match find_pool_index(&pools, ca, cb) {
            Some(idx) => {
                let p = pools[idx];
                proof {
                    lemma_map_of_index(pools@, idx as int);
                }
                let (rin, rout) = if token_in == p.token_a {
                    (p.reserve_a, p.reserve_b)
                } else {
                    (p.reserve_b, p.reserve_a)
                };
                match calculate_swap_out(amount_in, rin, rout, p.fee_rate) {
                    Ok(out) => {
                        let new_rin = sat_add_exec(rin, amount_in);
                        let new_rout = rout - out;
                        let np = if token_in == p.token_a {
                            PoolReserves { reserve_a: new_rin, reserve_b: new_rout, ..p }
                        } else {
                            PoolReserves { reserve_a: new_rout, reserve_b: new_rin, ..p }
                        };
                        assert(np == swapped_pool(p, token_in, amount_in, out));
                        proof {
                            if rin + amount_in <= u128::MAX {
                                crate::amm_logic::lemma_swap_preserves_product(
                                    amount_in as int,
                                    rin as int,
                                    rout as int,
                                    p.fee_rate as int,
                                );
                                assert((np.reserve_a as int) * (np.reserve_b as int) >= p.reserve_a
                                    * p.reserve_b) by (nonlinear_arith)
                                    requires
                                        (rin + amount_in) * (rout - out) >= rin * rout,
                                        (np.reserve_a == rin + amount_in && np.reserve_b == rout
                                            - out && p.reserve_a == rin && p.reserve_b == rout)
                                            || (np.reserve_b == rin + amount_in && np.reserve_a
                                            == rout - out && p.reserve_b == rin && p.reserve_a
                                            == rout);
                            }
                        }
                        proof {
                            lemma_map_of_update(pools@, idx as int, np);
                        }
                        pools[idx] = np;
                        Ok(out)
                    },
                    Err(e) => Err(e),
                }
            },
            None => {
                proof {
                    lemma_map_of_contains(pools@, (ca, cb));
                }
                Err(ZapError::NotFound)
            },
        };
        self.pools = pools;
        r
    }

    /// Deposit both amounts into the stored pool for `{token_a, token_b}`
    /// and mint the corresponding LP tokens; `amount_a` belongs to
    /// `token_a` as the caller names it.
    ///
    /// On any failure the store is unchanged.
    pub fn simulate_add_liquidity(
        &mut self,
        token_a: AlkaneId,
        token_b: AlkaneId,
        amount_a: u128,
        amount_b: u128,
    ) -> (r: Result<u128, ZapError>)
        ensures
            match r {
                Ok(lp) => {
                    let key = canonical_pair(token_a, token_b);
                    let p = old(self).pools()[key];
                    let oriented_a: u128 = if token_a == p.token_a {
                        amount_a
                    } else {
                        amount_b
                    };
                    let oriented_b: u128 = if token_a == p.token_a {
                        amount_b
                    } else {
                        amount_a
                    };
                    &&& old(self).pools().contains_key(key)
                    &&& (p.total_supply > 0 ==> p.reserve_a > 0 && p.reserve_b > 0)
                    &&& (if p.total_supply == 0 {
                        lp * lp <= oriented_a * oriented_b < (lp + 1) * (lp + 1)
                    } else {
                        lp == min_int(
                            spec_lp_share(
                                oriented_a as int,
                                p.total_supply as int,
                                p.reserve_a as int,
                            ),
                            spec_lp_share(
                                oriented_b as int,
                                p.total_supply as int,
                                p.reserve_b as int,
                            ),
                        )
                    })
                    &&& final (self).pools() == old(self).pools().insert(
                        key,
                        deposited_pool(p, token_a, amount_a, amount_b, lp),
                    )
                },
                Err(e) => {
                    &&& final (self).pools() == old(self).pools()
                    &&& match e {
                        ZapError::NotFound => !old(self).pools().contains_key(
                            canonical_pair(token_a, token_b),
                        ),
                        ZapError::InsufficientLiquidity => {
                            let p = old(self).pools()[canonical_pair(token_a, token_b)];
                            &&& old(self).pools().contains_key(canonical_pair(token_a, token_b))
                            &&& p.total_supply > 0
                            &&& (p.reserve_a == 0 || p.reserve_b == 0)
                        },
                        ZapError::Overflow => old(self).pools().contains_key(
                            canonical_pair(token_a, token_b),
                        ),
                        _ => false,
                    }
                },
            },
    {
        proof {
            use_type_invariant(&*self);
        }
        let (ca, cb) = canonicalize(token_a, token_b);
        let mut pools: Vec<PoolReserves> = Vec::new();
        core::mem::swap(&mut pools, &mut self.pools);
        let r = match find_pool_index(&pools, ca, cb) {
            Some(idx) => {
                let p = pools[idx];
                proof {
                    lemma_map_of_index(pools@, idx as int);
                }
                if p.total_supply > 0 && (p.reserve_a == 0 || p.reserve_b == 0) {
                    Err(ZapError::InsufficientLiquidity)
                } else {
                    let (aa, ab) = if token_a == p.token_a {
                        (amount_a, amount_b)
                    } else {
                        (amount_b, amount_a)
                    };
                    match calculate_lp_tokens_minted(
                        aa,
                        ab,
                        p.reserve_a,
                        p.reserve_b,
                        p.total_supply,
                    ) {
                        Ok(lp) => {
                            let np = PoolReserves {
                                reserve_a: sat_add_exec(p.reserve_a, aa),
                                reserve_b: sat_add_exec(p.reserve_b, ab),
                                total_supply: sat_add_exec(p.total_supply, lp),
                                ..p
                            };
                            assert(np == deposited_pool(p, token_a, amount_a, amount_b, lp));
                            proof {
                                lemma_map_of_update(pools@, idx as int, np);
                            }
                            pools[idx] = np;
                            Ok(lp)
                        },
                        Err(e) => Err(e),
                    }
                }
            },
            None => {
                proof {
                    lemma_map_of_contains(pools@, (ca, cb));
                }
                Err(ZapError::NotFound)
            },
        };
        self.pools = pools;
        r
    }

    /// The stored pool for the unordered pair, if any.
    pub fn get_pool(&self, token_a: AlkaneId, token_b: AlkaneId) -> (r: Option<PoolReserves>)
        ensures
            match r {
                Some(p) => self.pools().contains_key(canonical_pair(token_a, token_b)) && p
                    == self.pools()[canonical_pair(token_a, token_b)],
                None => !self.pools().contains_key(canonical_pair(token_a, token_b)),
            },
    {
        match self.get_pool_reserves(token_a, token_b) {
            Ok(p) => Some(p),
            Err(_) => None,
        }
    }
}

/// Canonical-key law: an update stored through one ordering of a pair is
/// the pool that a read through the other ordering returns, because both
/// orderings address the one canonical storage slot.
pub proof fn lemma_mutation_visible_both_orders(
    m: Map<(AlkaneId, AlkaneId), PoolReserves>,
    a: AlkaneId,
    b: AlkaneId,
    p: PoolReserves,
)
    ensures
        m.insert(canonical_pair(a, b), p)[canonical_pair(b, a)] == p,
        m.insert(canonical_pair(b, a), p)[canonical_pair(a, b)] == p,
{
    crate::pool_provider::lemma_canonical_pair_symmetric(a, b);
}

/// Key membership for every candidate key at once.
proof fn lemma_map_of_contains_all(s: Seq<PoolReserves>)
    ensures
        forall|k: (AlkaneId, AlkaneId)|
            #[trigger] map_of(s).contains_key(k) <==> exists|i: int|
                0 <= i < s.len() && pool_key(#[trigger] s[i]) == k,
{
    assert forall|k: (AlkaneId, AlkaneId)|
        #[trigger] map_of(s).contains_key(k) <==> exists|i: int|
            0 <= i < s.len() && pool_key(#[trigger] s[i]) == k by {
        lemma_map_of_contains(s, k);
    }
}

} // verus!
