use vstd::prelude::*;

use crate::models::{has_key, keys_unique, lemma_filter_all, lemma_filter_filter, ActiveOracle, ActiveOracles};

verus! {

/// Whether `o` is an oracle of `chain_id` whose measurement time has come by
/// `block_timestamp`.
pub open spec fn is_due(o: ActiveOracle, chain_id: u64, block_timestamp: u64) -> bool {
    o.chain_id == chain_id && o.measurement_timestamp <= block_timestamp
}

/// Whether `o` was answered: some due oracle with its key had its resolution
/// confirmed.
pub open spec fn answered_in(o: ActiveOracle, due: Seq<ActiveOracle>, confirmed: Seq<bool>) -> bool {
    exists|i: int|
        0 <= i < due.len() && i < confirmed.len() && confirmed[i] && has_key(
            o,
            #[trigger] due[i].chain_id,
            due[i].address,
        )
}

/// Whether the measurement time of `o` has come by `block_timestamp`.
pub fn measurement_elapsed(o: &ActiveOracle, block_timestamp: u64) -> (r: bool)
    ensures
        r == (o.measurement_timestamp <= block_timestamp),
{
    o.measurement_timestamp <= block_timestamp
}

/// The oracles of `chain_id` that a block with time `block_timestamp` makes
/// answerable, in the store's order.
pub fn due_for_answering(store: &ActiveOracles, chain_id: u64, block_timestamp: u64) -> (r: Vec<
    ActiveOracle,
>)
    ensures
        r@ == store@.filter(|o: ActiveOracle| is_due(o, chain_id, block_timestamp)),
{
    let ghost due = |o: ActiveOracle| is_due(o, chain_id, block_timestamp);
    let ghost of_chain = |o: ActiveOracle| o.chain_id == chain_id;
    let ghost in_time = |o: ActiveOracle| o.measurement_timestamp <= block_timestamp;
    let all = ActiveOracle::get_all_for_chain_id(store, chain_id);
    let mut out: Vec<ActiveOracle> = Vec::new();
    let mut i: usize = 0;
    while i < all.len()
        invariant
            0 <= i <= all@.len(),
            in_time == (|o: ActiveOracle| o.measurement_timestamp <= block_timestamp),
            out@ == all@.take(i as int).filter(in_time),
        decreases all@.len() - i,
    {
        proof {
            reveal(Seq::filter);
            assert(all@.take(i + 1).drop_last() == all@.take(i as int));
            assert(all@.take(i + 1).last() == all@[i as int]);
        }
        let elapsed = measurement_elapsed(&all[i], block_timestamp);
        proof {
            assert(in_time(all@[i as int]) == elapsed);
        }
        if elapsed {
            out.push(all[i].duplicate());
        }
        i = i + 1;
    }
    proof {
        assert(all@.take(all@.len() as int) == all@);
        lemma_filter_filter(store@, of_chain, in_time);
        assert(due =~= (|o: ActiveOracle| of_chain(o) && in_time(o)));
    }
    out
}

/// Removes from the store each oracle of `due` whose resolution was confirmed,
/// `confirmed[i]` telling of `due[i]`. The others stay for a later block.
pub fn record_answers(store: &mut ActiveOracles, due: &Vec<ActiveOracle>, confirmed: &Vec<bool>)
    requires
        old(store).wf(),
        due@.len() == confirmed@.len(),
    ensures
        final(store).wf(),
        final(store)@ == old(store)@.filter(
            |o: ActiveOracle| !answered_in(o, due@, confirmed@),
        ),
{
    let ghost start = store@;
    proof {
        let none = |o: ActiveOracle| !answered_in(o, due@.take(0), confirmed@.take(0));
        lemma_filter_all(start, none);
    }
    let mut i: usize = 0;
    while i < due.len()
        invariant
            0 <= i <= due@.len(),
            due@.len() == confirmed@.len(),
            store.wf(),
            store@ == start.filter(
                |o: ActiveOracle| !answered_in(o, due@.take(i as int), confirmed@.take(i as int)),
            ),
        decreases due@.len() - i,
    {
        let ghost before = |o: ActiveOracle|
            !answered_in(o, due@.take(i as int), confirmed@.take(i as int));
        let ghost after = |o: ActiveOracle|
            !answered_in(o, due@.take(i + 1), confirmed@.take(i + 1));
        let ghost not_this = |o: ActiveOracle| !has_key(o, due@[i as int].chain_id, due@[i as int].address);
        if confirmed[i] {
            due[i].delete(store);
            proof {
                lemma_filter_filter(start, before, not_this);
                assert forall|o: ActiveOracle| #[trigger] after(o) == (before(o) && not_this(o)) by {
                    if !after(o) {
                        let j = choose|j: int|
                            0 <= j < due@.take(i + 1).len() && j < confirmed@.take(i + 1).len()
                                && confirmed@.take(i + 1)[j] && has_key(
                                o,
                                #[trigger] due@.take(i + 1)[j].chain_id,
                                due@.take(i + 1)[j].address,
                            );
                        if j < i {
                            assert(due@.take(i as int)[j] == due@[j]);
                            assert(confirmed@.take(i as int)[j] == confirmed@[j]);
                        }
                    }
                    if !before(o) {
                        let j = choose|j: int|
                            0 <= j < due@.take(i as int).len() && j < confirmed@.take(i as int).len()
                                && confirmed@.take(i as int)[j] && has_key(
                                o,
                                #[trigger] due@.take(i as int)[j].chain_id,
                                due@.take(i as int)[j].address,
                            );
                        assert(due@.take(i + 1)[j] == due@[j]);
                    }
                    if !not_this(o) {
                        assert(due@.take(i + 1)[i as int] == due@[i as int]);
                    }
                }
                assert(after =~= (|o: ActiveOracle| before(o) && not_this(o)));
            }
        } else {
            proof {
                assert forall|o: ActiveOracle| #[trigger] after(o) == before(o) by {
                    if !after(o) {
                        let j = choose|j: int|
                            0 <= j < due@.take(i + 1).len() && j < confirmed@.take(i + 1).len()
                                && confirmed@.take(i + 1)[j] && has_key(
                                o,
                                #[trigger] due@.take(i + 1)[j].chain_id,
                                due@.take(i + 1)[j].address,
                            );
                        assert(due@.take(i as int)[j] == due@[j]);
                        assert(confirmed@.take(i as int)[j] == confirmed@[j]);
                    }
                    if !before(o) {
                        let j = choose|j: int|
                            0 <= j < due@.take(i as int).len() && j < confirmed@.take(i as int).len()
                                && confirmed@.take(i as int)[j] && has_key(
                                o,
                                #[trigger] due@.take(i as int)[j].chain_id,
                                due@.take(i as int)[j].address,
                            );
                        assert(due@.take(i + 1)[j] == due@[j]);
                    }
                }
                assert(after =~= before);
            }
        }
        i = i + 1;
    }
    proof {
        assert(due@.take(due@.len() as int) == due@);
        assert(confirmed@.take(confirmed@.len() as int) == confirmed@);
    }
}

/// An oracle whose measurement time is later than the block's is left in the store
/// by the sweep of that block, whatever the submissions gave: the sweep answers only
/// the due oracles, and no due oracle shares its key.
pub proof fn lemma_sweep_keeps_future_oracles(
    rows: Seq<ActiveOracle>,
    chain_id: u64,
    block_timestamp: u64,
    confirmed: Seq<bool>,
    k: int,
)
    requires
        keys_unique(rows),
        0 <= k < rows.len(),
        rows[k].measurement_timestamp > block_timestamp,
    ensures
        rows.filter(
            |o: ActiveOracle|
                !answered_in(
                    o,
                    rows.filter(|o: ActiveOracle| is_due(o, chain_id, block_timestamp)),
                    confirmed,
                ),
        ).contains(rows[k]),
{
    broadcast use vstd::seq_lib::group_filter_ensures;

    let due = rows.filter(|o: ActiveOracle| is_due(o, chain_id, block_timestamp));
    let keep = |o: ActiveOracle| !answered_in(o, due, confirmed);
    if answered_in(rows[k], due, confirmed) {
        let i = choose|i: int|
            0 <= i < due.len() && i < confirmed.len() && confirmed[i] && has_key(
                rows[k],
                #[trigger] due[i].chain_id,
                due[i].address,
            );
        lemma_filter_subset(rows, |o: ActiveOracle| is_due(o, chain_id, block_timestamp));
        assert(rows.contains(due[i]));
        let m = choose|m: int| 0 <= m < rows.len() && rows[m] == due[i];
        assert(is_due(due[i], chain_id, block_timestamp));
        if m < k {
            assert(!has_key(rows[k], rows[m].chain_id, rows[m].address));
        } else if k < m {
            assert(!has_key(rows[m], rows[k].chain_id, rows[k].address));
        }
    }
    assert(keep(rows[k]));
}

/// Every element of a filtered sequence is an element of the sequence.
pub proof fn lemma_filter_subset<A>(s: Seq<A>, p: spec_fn(A) -> bool)
    ensures
        forall|i: int| 0 <= i < s.filter(p).len() ==> s.contains(#[trigger] s.filter(p)[i]),
    decreases s.len(),
{
    reveal(Seq::filter);
    if s.len() > 0 {
        let init = s.drop_last();
        lemma_filter_subset(init, p);
        let fi = init.filter(p);
        assert forall|i: int| 0 <= i < s.filter(p).len() implies s.contains(#[trigger] s.filter(p)[i]) by {
            if i < fi.len() {
                assert(s.filter(p)[i] == fi[i]);
                let m = choose|m: int| 0 <= m < init.len() && init[m] == fi[i];
                assert(s[m] == init[m]);
            } else {
                assert(s[s.len() - 1] == s.filter(p)[i]);
            }
        }
    }
}

} // verus!
