//! The capability through which the engine reads the pool network.

use vstd::prelude::*;
use crate::types::{AlkaneId, PoolReserves, ZapError};

verus! {

/// The canonical (ordered) form of an unordered token pair: the storage
/// key under which a pool for the pair lives, whichever way the pair is
/// asked for.
pub open spec fn canonical_pair(a: AlkaneId, b: AlkaneId) -> (AlkaneId, AlkaneId) {
    if a.spec_le(b) {
        (a, b)
    } else {
        (b, a)
    }
}

/// The canonical pair is the same whichever way round the tokens come:
/// queries and updates through either ordering reach one storage slot.
pub proof fn lemma_canonical_pair_symmetric(a: AlkaneId, b: AlkaneId)
    ensures
        canonical_pair(a, b) == canonical_pair(b, a),
{
}

/// Put a token pair into its canonical order.
pub fn canonicalize(a: AlkaneId, b: AlkaneId) -> (r: (AlkaneId, AlkaneId))
    ensures
        r == canonical_pair(a, b),
{
    if a.le(&b) {
        (a, b)
    } else {
        (b, a)
    }
}

/// Read access to a pool network.
///
/// The routing and quoting engine is generic over this capability; a
/// store satisfies it when its abstract view is a map from canonical
/// token pairs to pool snapshots that carry their own (canonically
/// ordered) tokens and a fee rate below 100%.
pub trait PoolProvider: Sized {
    /// The pools, viewed as a map from canonical token pairs to
    /// snapshots.
    spec fn pools(&self) -> Map<(AlkaneId, AlkaneId), PoolReserves>;

    /// The reserves of the pool for the unordered pair `{token_a,
    /// token_b}`, or `NotFound` when no such pool exists.  The snapshot
    /// returned is the stored one: order-independent in the query.
    fn get_pool_reserves(&self, token_a: AlkaneId, token_b: AlkaneId) -> (r: Result<
        PoolReserves,
        ZapError,
    >)
        ensures
            match r {
                Ok(p) => {
                    let key = canonical_pair(token_a, token_b);
                    &&& self.pools().contains_key(key)
                    &&& p == self.pools()[key]
                    &&& p.token_a == key.0
                    &&& p.token_b == key.1
                    &&& p.fee_rate < 10000
                },
                Err(e) => e == ZapError::NotFound && !self.pools().contains_key(
                    canonical_pair(token_a, token_b),
                ),
            },
    ;

    /// All counterparties with an existing pool against `token`,
    /// deduplicated, in a stable order chosen by the store.
    fn get_connected_tokens(&self, token: AlkaneId) -> (r: Result<Vec<AlkaneId>, ZapError>)
        ensures
            match r {
                Ok(v) => {
                    &&& v@.no_duplicates()
                    &&& forall|x: AlkaneId|
                        v@.contains(x) <==> (x != token && self.pools().contains_key(
                            #[trigger] canonical_pair(token, x),
                        ))
                },
                Err(_) => true,
            },
    ;
}

} // verus!
