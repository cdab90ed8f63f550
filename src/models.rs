use vstd::prelude::*;

use crate::address::Address;

use std::collections::HashMap;

verus! {

broadcast use vstd::std_specs::hash::group_hash_axioms;

/// An oracle that has been acknowledged and now waits to be answered.
#[derive(Debug)]
pub struct ActiveOracle {
    pub address: Address,
    pub chain_id: u64,
    /// Seconds since the Unix epoch at which the oracle becomes answerable.
    pub measurement_timestamp: u64,
    /// The validated specification document.
    pub specification: String,
}

/// Why the store refused a write.
#[derive(Debug, Clone, Copy, PartialEq, Eq, Structural)]
pub enum StoreError {
    /// A row with the same chain and address is already stored.
    DuplicateOracle,
}

/// The table of active oracles, keyed by chain and address.
pub struct ActiveOracles {
    rows: Vec<ActiveOracle>,
}

/// Whether `o` is stored under the key `(chain_id, address)`.
pub open spec fn has_key(o: ActiveOracle, chain_id: u64, address: Address) -> bool {
    o.chain_id == chain_id && o.address == address
}

/// No two of `rows` share a key.
pub open spec fn keys_unique(rows: Seq<ActiveOracle>) -> bool {
    forall|i: int, j: int|
        0 <= i < j < rows.len() ==> !has_key(#[trigger] rows[j], #[trigger] rows[i].chain_id, rows[i].address)
}

/// Whether some row of `rows` is stored under `(chain_id, address)`.
pub open spec fn stored(rows: Seq<ActiveOracle>, chain_id: u64, address: Address) -> bool {
    exists|i: int| 0 <= i < rows.len() && has_key(#[trigger] rows[i], chain_id, address)
}

impl ActiveOracle {
    /// A copy of this row.
    pub fn duplicate(&self) -> (r: ActiveOracle)
        ensures
            r == *self,
    {
        ActiveOracle {
            address: self.address,
            chain_id: self.chain_id,
            measurement_timestamp: self.measurement_timestamp,
            specification: self.specification.clone(),
        }
    }

    /// Inserts a new row; refused when the key is taken.
    pub fn create(
        store: &mut ActiveOracles,
        address: Address,
        chain_id: u64,
        measurement_timestamp: u64,
        specification: String,
    ) -> (r: Result<(), StoreError>)
        requires
            old(store).wf(),
        ensures
            final(store).wf(),
            final(store).contains(chain_id, address),
            old(store).contains(chain_id, address) ==> r == Err::<(), StoreError>(
                StoreError::DuplicateOracle,
            ) && final(store)@ == old(store)@,
            !old(store).contains(chain_id, address) ==> r == Ok::<(), StoreError>(())
                && final(store)@ == old(store)@.push(
                (ActiveOracle { address, chain_id, measurement_timestamp, specification }),
            ),
    {
        if store.find(chain_id, address).is_some() {
            return Err(StoreError::DuplicateOracle);
        }
        let row = ActiveOracle { address, chain_id, measurement_timestamp, specification };
        store.rows.push(row);
        proof {
            assert(has_key(store@[store@.len() - 1], chain_id, address));
            assert forall|i: int, j: int|
                0 <= i < j < store@.len() implies !has_key(
                    store@[j],
                    store@[i].chain_id,
                    store@[i].address,
                ) by {
                if j == store@.len() - 1 {
                    assert(old(store)@[i] == store@[i]);
                }
            }
        }
        Ok(())
    }

    /// Removes this oracle's row; nothing changes when it is already gone.
    pub fn delete(&self, store: &mut ActiveOracles)
        requires
            old(store).wf(),
        ensures
            final(store).wf(),
            final(store)@ == old(store)@.filter(
                |o: ActiveOracle| !has_key(o, self.chain_id, self.address),
            ),
    {
        store.remove(self.chain_id, self.address);
    }

    /// Every stored oracle of one chain, in the store's order.
    pub fn get_all_for_chain_id(store: &ActiveOracles, chain_id: u64) -> (r: Vec<ActiveOracle>)
        ensures
            r@ == store@.filter(|o: ActiveOracle| o.chain_id == chain_id),
    {
        let mut out: Vec<ActiveOracle> = Vec::new();
        let mut i: usize = 0;
        while i < store.rows.len()
            invariant
                0 <= i <= store@.len(),
                out@ == store@.take(i as int).filter(|o: ActiveOracle| o.chain_id == chain_id),
            decreases store@.len() - i,
        {
            proof {
                reveal(Seq::filter);
                assert(store@.take(i + 1).drop_last() == store@.take(i as int));
            }
            if store.rows[i].chain_id == chain_id {
                out.push(store.rows[i].duplicate());
            }
            i = i + 1;
        }
        proof {
            assert(store@.take(store@.len() as int) == store@);
        }
        out
    }
}

impl ActiveOracles {
    pub closed spec fn view(&self) -> Seq<ActiveOracle> {
        self.rows@
    }

    /// No two rows share a key.
    pub open spec fn wf(&self) -> bool {
        keys_unique(self@)
    }

    pub open spec fn contains(&self, chain_id: u64, address: Address) -> bool {
        stored(self@, chain_id, address)
    }

    /// An empty table.
    pub fn new() -> (r: ActiveOracles)
        ensures
            r.wf(),
            r@ == Seq::<ActiveOracle>::empty(),
    {
        ActiveOracles { rows: Vec::new() }
    }

    /// The number of stored oracles, over all chains.
    pub fn len(&self) -> (r: usize)
        ensures
            r == self@.len(),
    {
        self.rows.len()
    }

    /// The position of the row stored under `(chain_id, address)`, if any.
    pub fn find(&self, chain_id: u64, address: Address) -> (r: Option<usize>)
        ensures
            r is None <==> !self.contains(chain_id, address),
            r matches Some(i) ==> i < self@.len() && has_key(self@[i as int], chain_id, address),
    {
        let mut i: usize = 0;
        while i < self.rows.len()
            invariant
                0 <= i <= self@.len(),
                forall|j: int| 0 <= j < i ==> !has_key(#[trigger] self@[j], chain_id, address),
            decreases self@.len() - i,
        {
            if self.rows[i].chain_id == chain_id && self.rows[i].address == address {
                return Some(i);
            }
            i = i + 1;
        }
        None
    }

    /// Removes the row stored under `(chain_id, address)`, if any.
    pub fn remove(&mut self, chain_id: u64, address: Address)
        requires
            old(self).wf(),
        ensures
            final(self).wf(),
            final(self)@ == old(self)@.filter(|o: ActiveOracle| !has_key(o, chain_id, address)),
    {
        let ghost keep = |o: ActiveOracle| !has_key(o, chain_id, address);
        match self.find(chain_id, address) {
            None => {
                proof {
                    assert(self@.filter(keep) == self@) by {
                        lemma_filter_all(self@, keep);
                    }
                }
            },
            Some(k) => {
                let ghost before = self@;
                self.rows.remove(k);
                proof {
                    lemma_filter_skip_one(before, keep, k as int);
                    assert forall|i: int, j: int|
                        0 <= i < j < self@.len() implies !has_key(
                            self@[j],
                            self@[i].chain_id,
                            self@[i].address,
                        ) by {
                        let bi = if i < k { i } else { i + 1 };
                        let bj = if j < k { j } else { j + 1 };
                        assert(before[bi] == self@[i] && before[bj] == self@[j]);
                    }
                }
            },
        }
    }
}

/// The scan checkpoint of one chain: every event at or below `block_number` has
/// been processed.
#[derive(Debug, Clone, Copy, PartialEq, Eq, Structural)]
pub struct Snapshot {
    pub chain_id: u64,
    pub block_number: u64,
}

/// The table of checkpoints, one row per chain.
pub struct Snapshots {
    rows: HashMap<u64, u64>,
}

impl Snapshots {
    /// The checkpoint block of each chain that has one.
    pub closed spec fn view(&self) -> Map<u64, u64> {
        self.rows@
    }

    /// An empty table.
    pub fn new() -> (r: Snapshots)
        ensures
            r@ == Map::<u64, u64>::empty(),
    {
        Snapshots { rows: HashMap::new() }
    }
}

impl Snapshot {
    /// Records `block_number` as the checkpoint of `chain_id`, replacing any earlier one.
    pub fn update(store: &mut Snapshots, chain_id: u64, block_number: u64)
        ensures
            final(store)@ == old(store)@.insert(chain_id, block_number),
    {
        store.rows.insert(chain_id, block_number);
    }

    /// The checkpoint of `chain_id`, or `None` when none has been recorded.
    pub fn get_for_chain_id(store: &Snapshots, chain_id: u64) -> (r: Option<Snapshot>)
        ensures
            store@.contains_key(chain_id) ==> r == Some(
                Snapshot { chain_id, block_number: store@[chain_id] },
            ),
            !store@.contains_key(chain_id) ==> r is None,
    {
        match store.rows.get(&chain_id) {
            Some(b) => Some(Snapshot { chain_id, block_number: *b }),
            None => None,
        }
    }
}

/// Each key is stored in at most one row of a well-formed table.
pub proof fn lemma_at_most_one_row_per_key(
    rows: Seq<ActiveOracle>,
    chain_id: u64,
    address: Address,
    i: int,
    j: int,
)
    requires
        keys_unique(rows),
        0 <= i < rows.len(),
        0 <= j < rows.len(),
        has_key(rows[i], chain_id, address),
        has_key(rows[j], chain_id, address),
    ensures
        i == j,
{
    if i < j {
        assert(!has_key(rows[j], rows[i].chain_id, rows[i].address));
    } else if j < i {
        assert(!has_key(rows[i], rows[j].chain_id, rows[j].address));
    }
}

/// After one `create` of a key, whether it was refused or not, the key is stored,
/// so a second `create` of it is refused.
pub proof fn lemma_second_create_refused(
    rows: Seq<ActiveOracle>,
    address: Address,
    chain_id: u64,
    measurement_timestamp: u64,
    specification: String,
)
    ensures
        ({
            let after_first = if stored(rows, chain_id, address) {
                rows
            } else {
                rows.push(ActiveOracle { address, chain_id, measurement_timestamp, specification })
            };
            stored(after_first, chain_id, address)
        }),
{
    if !stored(rows, chain_id, address) {
        let after = rows.push(ActiveOracle { address, chain_id, measurement_timestamp, specification });
        assert(has_key(after[rows.len() as int], chain_id, address));
    }
}

/// Deleting a key twice leaves what deleting it once leaves, and deleting a key
/// that is not stored changes nothing.
pub proof fn lemma_delete_idempotent(rows: Seq<ActiveOracle>, chain_id: u64, address: Address)
    ensures
        rows.filter(|o: ActiveOracle| !has_key(o, chain_id, address)).filter(
            |o: ActiveOracle| !has_key(o, chain_id, address),
        ) == rows.filter(|o: ActiveOracle| !has_key(o, chain_id, address)),
        !stored(rows, chain_id, address) ==> rows.filter(
            |o: ActiveOracle| !has_key(o, chain_id, address),
        ) == rows,
{
    let keep = |o: ActiveOracle| !has_key(o, chain_id, address);
    lemma_filter_filter(rows, keep, keep);
    assert((|o: ActiveOracle| keep(o) && keep(o)) =~= keep);
    if !stored(rows, chain_id, address) {
        lemma_filter_all(rows, keep);
    }
}

/// Filtering twice keeps what both predicates keep.
pub proof fn lemma_filter_filter<A>(s: Seq<A>, p: spec_fn(A) -> bool, q: spec_fn(A) -> bool)
    ensures
        s.filter(p).filter(q) == s.filter(|x: A| p(x) && q(x)),
    decreases s.len(),
{
    reveal(Seq::filter);
    if s.len() > 0 {
        let init = s.drop_last();
        lemma_filter_filter(init, p, q);
        let fp = init.filter(p);
        if p(s.last()) {
            assert(fp.push(s.last()).drop_last() == fp);
        }
    }
}

/// A filter that keeps every element of `s` returns `s`.
pub proof fn lemma_filter_all<A>(s: Seq<A>, keep: spec_fn(A) -> bool)
    requires
        forall|i: int| 0 <= i < s.len() ==> keep(#[trigger] s[i]),
    ensures
        s.filter(keep) == s,
    decreases s.len(),
{
    reveal(Seq::filter);
    if s.len() > 0 {
        lemma_filter_all(s.drop_last(), keep);
        assert(s.drop_last().push(s.last()) == s);
    }
}

/// In a keyed table, filtering out one key drops exactly its row.
proof fn lemma_filter_skip_one<A>(s: Seq<A>, keep: spec_fn(A) -> bool, k: int)
    requires
        0 <= k < s.len(),
        !keep(s[k]),
        forall|i: int| 0 <= i < s.len() && i != k ==> keep(#[trigger] s[i]),
    ensures
        s.filter(keep) == s.remove(k),
    decreases s.len(),
{
    reveal(Seq::filter);
    if k == s.len() - 1 {
        lemma_filter_all(s.drop_last(), keep);
        assert(s.remove(k) == s.drop_last());
    } else {
        lemma_filter_skip_one(s.drop_last(), keep, k);
        assert(s.remove(k) == s.drop_last().remove(k).push(s.last()));
    }
}

} // verus!
