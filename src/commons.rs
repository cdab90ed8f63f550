use vstd::prelude::*;

use crate::address::Address;
use crate::models::{stored, ActiveOracle, ActiveOracles, StoreError};

verus! {

/// An oracle found in a creation event that passed the eligibility filters, before
/// its specification has been fetched and validated.
#[derive(Debug)]
pub struct DefiLlamaOracleData {
    pub address: Address,
    /// Seconds since the Unix epoch.
    pub measurement_timestamp: u64,
    /// Content identifier of the specification document.
    pub specification_cid: String,
}

/// What the chain answered for one oracle of a created token. Each `None` is a
/// read that failed.
#[derive(Debug)]
pub struct OracleReads {
    pub address: Address,
    /// The finalized flag and the template id, read together in one batch.
    pub status: Option<(bool, u64)>,
    pub specification_cid: Option<String>,
    pub measurement_timestamp: Option<u64>,
}

/// What was read for one creation log.
#[derive(Debug)]
pub struct CreationLogReads {
    /// The created token, or `None` when the log is not a creation event.
    pub created_token: Option<Address>,
    /// The token's oracles, or `None` when the read of its oracle list failed.
    pub oracles: Option<Vec<OracleReads>>,
}

/// Why no candidates could be taken from a creation log.
#[derive(Debug, Clone, Copy, PartialEq, Eq, Structural)]
pub enum ExtractionError {
    /// The created token's oracle list could not be read.
    OracleListUnavailable,
}

/// How an oracle fares against the eligibility filters.
#[derive(Debug, Clone, Copy, PartialEq, Eq, Structural)]
pub enum OracleVerdict {
    /// Already resolved.
    Finalized,
    /// Built from another template than the one handled here.
    WrongTemplate,
    Eligible,
}

pub open spec fn verdict(finalized: bool, template_id: u64, target_template_id: u64) -> OracleVerdict {
    if finalized {
        OracleVerdict::Finalized
    } else if template_id != target_template_id {
        OracleVerdict::WrongTemplate
    } else {
        OracleVerdict::Eligible
    }
}

/// Applies the eligibility filters to an oracle's finalized flag and template id.
pub fn classify_oracle(finalized: bool, template_id: u64, target_template_id: u64) -> (r:
    OracleVerdict)
    ensures
        r == verdict(finalized, template_id, target_template_id),
{
    if finalized {
        OracleVerdict::Finalized
    } else if template_id != target_template_id {
        OracleVerdict::WrongTemplate
    } else {
        OracleVerdict::Eligible
    }
}

/// The candidate that one oracle's reads give, if any.
pub open spec fn candidate_of(r: OracleReads, target_template_id: u64) -> Option<
    DefiLlamaOracleData,
> {
    match (r.status, r.specification_cid, r.measurement_timestamp) {
        (Some((finalized, template_id)), Some(cid), Some(ts)) => if verdict(
            finalized,
            template_id,
            target_template_id,
        ) == OracleVerdict::Eligible {
            Some(
                DefiLlamaOracleData {
                    address: r.address,
                    measurement_timestamp: ts,
                    specification_cid: cid,
                },
            )
        } else {
            None
        },
        _ => None,
    }
}

/// The candidates of a token's oracles, in the order of the oracles.
pub open spec fn candidates_of(rs: Seq<OracleReads>, target_template_id: u64) -> Seq<
    DefiLlamaOracleData,
>
    decreases rs.len(),
{
    if rs.len() == 0 {
        Seq::empty()
    } else {
        let init = candidates_of(rs.drop_last(), target_template_id);
        match candidate_of(rs.last(), target_template_id) {
            Some(d) => init.push(d),
            None => init,
        }
    }
}

/// What a creation log yields.
pub open spec fn extraction_of(log: CreationLogReads, target_template_id: u64) -> Result<
    Seq<DefiLlamaOracleData>,
    ExtractionError,
> {
    match log.created_token {
        None => Ok(Seq::empty()),
        Some(_) => match log.oracles {
            None => Err(ExtractionError::OracleListUnavailable),
            Some(rs) => Ok(candidates_of(rs@, target_template_id)),
        },
    }
}

/// The candidates of many creation logs; a log that yields an error yields none.
pub open spec fn candidates_of_logs(logs: Seq<CreationLogReads>, target_template_id: u64) -> Seq<
    DefiLlamaOracleData,
>
    decreases logs.len(),
{
    if logs.len() == 0 {
        Seq::empty()
    } else {
        let init = candidates_of_logs(logs.drop_last(), target_template_id);
        match extraction_of(logs.last(), target_template_id) {
            Ok(ds) => init + ds,
            Err(_) => init,
        }
    }
}

impl DefiLlamaOracleData {
    /// A copy of this candidate.
    pub fn duplicate(&self) -> (r: DefiLlamaOracleData)
        ensures
            r == *self,
    {
        DefiLlamaOracleData {
            address: self.address,
            measurement_timestamp: self.measurement_timestamp,
            specification_cid: self.specification_cid.clone(),
        }
    }
}

/// The candidate that one oracle's reads give: none when a read failed or the
/// oracle is finalized or of another template.
pub fn oracle_data_from_reads(reads: &OracleReads, target_template_id: u64) -> (r: Option<
    DefiLlamaOracleData,
>)
    ensures
        r == candidate_of(*reads, target_template_id),
{
    match (&reads.status, &reads.specification_cid, &reads.measurement_timestamp) {
        (Some((finalized, template_id)), Some(cid), Some(ts)) => {
            match classify_oracle(*finalized, *template_id, target_template_id) {
                OracleVerdict::Eligible => Some(
                    DefiLlamaOracleData {
                        address: reads.address,
                        measurement_timestamp: *ts,
                        specification_cid: cid.clone(),
                    },
                ),
                _ => None,
            }
        },
        _ => None,
    }
}

/// Takes the eligible oracles out of what was read for one creation log. A log
/// that is no creation event yields no candidates; a failed read of the oracle
/// list is an error; an oracle whose reads failed is skipped.
pub fn parse_kpi_token_creation_log(log: &CreationLogReads, oracle_template_id: u64) -> (r: Result<
    Vec<DefiLlamaOracleData>,
    ExtractionError,
>)
    ensures
        match (r, extraction_of(*log, oracle_template_id)) {
            (Ok(ds), Ok(expected)) => ds@ == expected,
            (Err(e), Err(expected)) => e == expected,
            _ => false,
        },
{
    if log.created_token.is_none() {
        return Ok(Vec::new());
    }
    let oracles = match &log.oracles {
        Some(oracles) => oracles,
        None => {
            return Err(ExtractionError::OracleListUnavailable);
        },
    };
    let mut data: Vec<DefiLlamaOracleData> = Vec::new();
    let mut i: usize = 0;
    while i < oracles.len()
        invariant
            0 <= i <= oracles@.len(),
            data@ == candidates_of(oracles@.take(i as int), oracle_template_id),
        decreases oracles@.len() - i,
    {
        proof {
            assert(oracles@.take(i + 1).drop_last() == oracles@.take(i as int));
        }
        match oracle_data_from_reads(&oracles[i], oracle_template_id) {
            Some(d) => data.push(d),
            None => {},
        }
        i = i + 1;
    }
    proof {
        assert(oracles@.take(oracles@.len() as int) == oracles@);
    }
    Ok(data)
}

/// The candidates of many creation logs, log after log. A log whose oracle list
/// could not be read contributes none, and the others proceed.
pub fn parse_kpi_token_creation_logs(logs: &Vec<CreationLogReads>, oracle_template_id: u64) -> (r:
    Vec<DefiLlamaOracleData>)
    ensures
        r@ == candidates_of_logs(logs@, oracle_template_id),
{
    let mut data: Vec<DefiLlamaOracleData> = Vec::new();
    let mut i: usize = 0;
    while i < logs.len()
        invariant
            0 <= i <= logs@.len(),
            data@ == candidates_of_logs(logs@.take(i as int), oracle_template_id),
        decreases logs@.len() - i,
    {
        proof {
            assert(logs@.take(i + 1).drop_last() == logs@.take(i as int));
        }
        match parse_kpi_token_creation_log(&logs[i], oracle_template_id) {
            Ok(found) => {
                let mut found = found;
                let ghost before = data@;
                data.append(&mut found);
                proof {
                    assert(data@ == before + extraction_of(logs@[i as int], oracle_template_id)->Ok_0);
                }
            },
            Err(_) => {},
        }
        i = i + 1;
    }
    proof {
        assert(logs@.take(logs@.len() as int) == logs@);
    }
    data
}

/// What came of fetching a candidate's specification document.
#[derive(Debug)]
pub enum FetchOutcome {
    /// Every attempt of the bounded retry failed.
    Exhausted,
    /// The document, and the verdict of its validation against reference data.
    Fetched { document: String, valid: bool },
}

/// How the acknowledgement of one candidate ended, short of a store failure.
#[derive(Debug, Clone, Copy, PartialEq, Eq, Structural)]
pub enum AckOutcome {
    /// The specification could not be fetched; the candidate is dropped.
    FetchExhausted,
    /// The specification failed validation; the candidate is dropped.
    Rejected,
    /// The oracle was stored; `pin_requested` asks for its content to be pinned.
    Stored { pin_requested: bool },
}

/// The store and the outcome after acknowledging one candidate.
pub open spec fn ack_step(
    rows: Seq<ActiveOracle>,
    chain_id: u64,
    d: DefiLlamaOracleData,
    f: FetchOutcome,
    pin_configured: bool,
) -> (Seq<ActiveOracle>, Result<AckOutcome, StoreError>) {
    match f {
        FetchOutcome::Exhausted => (rows, Ok(AckOutcome::FetchExhausted)),
        FetchOutcome::Fetched { document, valid } => if !valid {
            (rows, Ok(AckOutcome::Rejected))
        } else if stored(rows, chain_id, d.address) {
            (rows, Err(StoreError::DuplicateOracle))
        } else {
            (
                rows.push(
                    ActiveOracle {
                        address: d.address,
                        chain_id,
                        measurement_timestamp: d.measurement_timestamp,
                        specification: document,
                    },
                ),
                Ok(AckOutcome::Stored { pin_requested: pin_configured }),
            )
        },
    }
}

/// The store after acknowledging the candidates `ds`, one after the other, with the
/// fetch outcomes `fs`.
pub open spec fn ack_all(
    rows: Seq<ActiveOracle>,
    chain_id: u64,
    ds: Seq<DefiLlamaOracleData>,
    fs: Seq<FetchOutcome>,
    pin_configured: bool,
) -> Seq<ActiveOracle>
    decreases ds.len(),
{
    if ds.len() == 0 || fs.len() == 0 {
        rows
    } else {
        let before = ack_all(rows, chain_id, ds.drop_last(), fs.drop_last(), pin_configured);
        ack_step(before, chain_id, ds.last(), fs.last(), pin_configured).0
    }
}

impl FetchOutcome {
    /// A copy of this outcome.
    pub fn duplicate(&self) -> (r: FetchOutcome)
        ensures
            r == *self,
    {
        match self {
            FetchOutcome::Exhausted => FetchOutcome::Exhausted,
            FetchOutcome::Fetched { document, valid } => FetchOutcome::Fetched {
                document: document.clone(),
                valid: *valid,
            },
        }
    }
}

/// Acknowledges one candidate. A fetch that ran out of retries and a document that
/// failed validation drop the candidate without error; a valid document is stored
/// as an active oracle of `chain_id`, and pinning is requested when it is configured.
/// A store failure is the one error.
pub fn acknowledge_active_oracle(
    store: &mut ActiveOracles,
    chain_id: u64,
    oracle_data: DefiLlamaOracleData,
    fetched: FetchOutcome,
    pin_configured: bool,
) -> (r: Result<AckOutcome, StoreError>)
    requires
        old(store).wf(),
    ensures
        final(store).wf(),
        (final(store)@, r) == ack_step(old(store)@, chain_id, oracle_data, fetched, pin_configured),
{
    match fetched {
        FetchOutcome::Exhausted => Ok(AckOutcome::FetchExhausted),
        FetchOutcome::Fetched { document, valid } => {
            if !valid {
                return Ok(AckOutcome::Rejected);
            }
            match ActiveOracle::create(
                store,
                oracle_data.address,
                chain_id,
                oracle_data.measurement_timestamp,
                document,
            ) {
                Ok(()) => Ok(AckOutcome::Stored { pin_requested: pin_configured }),
                Err(e) => Err(e),
            }
        },
    }
}

/// Acknowledges each candidate with its own fetch outcome. Each candidate ends on
/// its own: a dropped or failed one does not keep the others from being stored.
/// The outcome of each stands at its index.
pub fn acknowledge_active_oracles(
    store: &mut ActiveOracles,
    chain_id: u64,
    oracles_data: &Vec<DefiLlamaOracleData>,
    fetched: &Vec<FetchOutcome>,
    pin_configured: bool,
) -> (r: Vec<Result<AckOutcome, StoreError>>)
    requires
        old(store).wf(),
        oracles_data@.len() == fetched@.len(),
    ensures
        final(store).wf(),
        final(store)@ == ack_all(old(store)@, chain_id, oracles_data@, fetched@, pin_configured),
        r@.len() == oracles_data@.len(),
        forall|i: int|
            0 <= i < r@.len() ==> #[trigger] r@[i] == ack_step(
                ack_all(
                    old(store)@,
                    chain_id,
                    oracles_data@.take(i),
                    fetched@.take(i),
                    pin_configured,
                ),
                chain_id,
                oracles_data@[i],
                fetched@[i],
                pin_configured,
            ).1,
{
    let ghost start = store@;
    let mut results: Vec<Result<AckOutcome, StoreError>> = Vec::new();
    let mut i: usize = 0;
    while i < oracles_data.len()
        invariant
            0 <= i <= oracles_data@.len(),
            oracles_data@.len() == fetched@.len(),
            store.wf(),
            store@ == ack_all(
                start,
                chain_id,
                oracles_data@.take(i as int),
                fetched@.take(i as int),
                pin_configured,
            ),
            results@.len() == i,
            forall|j: int|
                0 <= j < i ==> #[trigger] results@[j] == ack_step(
                    ack_all(
                        start,
                        chain_id,
                        oracles_data@.take(j),
                        fetched@.take(j),
                        pin_configured,
                    ),
                    chain_id,
                    oracles_data@[j],
                    fetched@[j],
                    pin_configured,
                ).1,
        decreases oracles_data@.len() - i,
    {
        proof {
            assert(oracles_data@.take(i + 1).drop_last() == oracles_data@.take(i as int));
            assert(fetched@.take(i + 1).drop_last() == fetched@.take(i as int));
        }
        let r = acknowledge_active_oracle(
            store,
            chain_id,
            oracles_data[i].duplicate(),
            fetched[i].duplicate(),
            pin_configured,
        );
        results.push(r);
        i = i + 1;
    }
    proof {
        assert(oracles_data@.take(oracles_data@.len() as int) == oracles_data@);
        assert(fetched@.take(fetched@.len() as int) == fetched@);
    }
    results
}

/// Whether the candidate `d` was taken from the reads `r`: an oracle read as not
/// finalized and of the target template.
pub open spec fn taken_from(r: OracleReads, d: DefiLlamaOracleData, target_template_id: u64) -> bool {
    &&& r.status == Some((false, target_template_id))
    &&& r.address == d.address
    &&& r.specification_cid == Some(d.specification_cid)
    &&& r.measurement_timestamp == Some(d.measurement_timestamp)
}

/// Whether `row` was stored for the candidate `d` of `chain_id` with the fetch
/// outcome `f`: a document found valid, which the row holds.
pub open spec fn stored_for(
    row: ActiveOracle,
    d: DefiLlamaOracleData,
    f: FetchOutcome,
    chain_id: u64,
) -> bool {
    &&& row.address == d.address
    &&& row.chain_id == chain_id
    &&& row.measurement_timestamp == d.measurement_timestamp
    &&& f == (FetchOutcome::Fetched { document: row.specification, valid: true })
}

/// Whether some oracle of `rs` gave the candidate `d`.
pub open spec fn has_source(rs: Seq<OracleReads>, d: DefiLlamaOracleData, target_template_id: u64) -> bool {
    exists|i: int| 0 <= i < rs.len() && #[trigger] taken_from(rs[i], d, target_template_id)
}

/// Whether some candidate of `ds`, with its fetch outcome in `fs`, gave the row.
pub open spec fn has_origin(
    row: ActiveOracle,
    ds: Seq<DefiLlamaOracleData>,
    fs: Seq<FetchOutcome>,
    chain_id: u64,
) -> bool {
    exists|j: int| 0 <= j < ds.len() && j < fs.len() && #[trigger] stored_for(row, ds[j], fs[j], chain_id)
}

/// Every candidate of a token's oracles comes from an oracle that was read as not
/// finalized and built from the target template.
pub proof fn lemma_candidates_are_eligible(rs: Seq<OracleReads>, target_template_id: u64)
    ensures
        forall|k: int|
            0 <= k < candidates_of(rs, target_template_id).len() ==> has_source(
                rs,
                #[trigger] candidates_of(rs, target_template_id)[k],
                target_template_id,
            ),
    decreases rs.len(),
{
    if rs.len() > 0 {
        let init = rs.drop_last();
        lemma_candidates_are_eligible(init, target_template_id);
        let ci = candidates_of(init, target_template_id);
        let c = candidates_of(rs, target_template_id);
        assert forall|k: int| 0 <= k < c.len() implies has_source(rs, #[trigger] c[k], target_template_id) by {
            if k < ci.len() {
                assert(c[k] == ci[k]);
                assert(has_source(init, ci[k], target_template_id));
                let i = choose|i: int|
                    0 <= i < init.len() && #[trigger] taken_from(init[i], ci[k], target_template_id);
                assert(rs[i] == init[i]);
                assert(taken_from(rs[i], c[k], target_template_id));
            } else {
                let i = rs.len() - 1;
                assert(rs[i] == rs.last());
                assert(taken_from(rs[i], c[k], target_template_id));
            }
        }
    } else {
        assert(candidates_of(rs, target_template_id).len() == 0);
    }
}

/// Acknowledging candidates only adds rows: the rows before stay in place, and each
/// new row was stored for one candidate whose fetched document was found valid.
pub proof fn lemma_acknowledged_rows_are_validated(
    rows: Seq<ActiveOracle>,
    chain_id: u64,
    ds: Seq<DefiLlamaOracleData>,
    fs: Seq<FetchOutcome>,
    pin_configured: bool,
)
    requires
        ds.len() == fs.len(),
    ensures
        ack_all(rows, chain_id, ds, fs, pin_configured).len() >= rows.len(),
        forall|k: int|
            0 <= k < rows.len() ==> #[trigger] ack_all(rows, chain_id, ds, fs, pin_configured)[k]
                == rows[k],
        forall|k: int|
            rows.len() <= k < ack_all(rows, chain_id, ds, fs, pin_configured).len() ==> has_origin(
                #[trigger] ack_all(rows, chain_id, ds, fs, pin_configured)[k],
                ds,
                fs,
                chain_id,
            ),
    decreases ds.len(),
{
    if ds.len() > 0 && fs.len() > 0 {
        let ds0 = ds.drop_last();
        let fs0 = fs.drop_last();
        lemma_acknowledged_rows_are_validated(rows, chain_id, ds0, fs0, pin_configured);
        let before = ack_all(rows, chain_id, ds0, fs0, pin_configured);
        let after = ack_all(rows, chain_id, ds, fs, pin_configured);
        assert(after == ack_step(before, chain_id, ds.last(), fs.last(), pin_configured).0);
        assert(after.len() == before.len() || after.len() == before.len() + 1);
        assert(forall|k: int| 0 <= k < before.len() ==> after[k] == before[k]);
        assert forall|k: int| rows.len() <= k < after.len() implies has_origin(
            #[trigger] after[k],
            ds,
            fs,
            chain_id,
        ) by {
            if k < before.len() {
                assert(has_origin(before[k], ds0, fs0, chain_id));
                let j = choose|j: int|
                    0 <= j < ds0.len() && j < fs0.len() && #[trigger] stored_for(
                        before[k],
                        ds0[j],
                        fs0[j],
                        chain_id,
                    );
                assert(ds[j] == ds0[j] && fs[j] == fs0[j]);
                assert(stored_for(after[k], ds[j], fs[j], chain_id));
            } else {
                let j = ds.len() - 1;
                assert(ds[j] == ds.last());
                assert(fs[j] == fs.last());
                assert(stored_for(after[k], ds.last(), fs.last(), chain_id));
            }
        }
    } else {
        assert(ack_all(rows, chain_id, ds, fs, pin_configured) == rows);
    }
}

/// Whether `row` is of an oracle of `log` that was read as not finalized and of the
/// target template, and holds a document that one of `fs` found valid.
pub open spec fn row_is_eligible_and_valid(
    row: ActiveOracle,
    log: CreationLogReads,
    target_template_id: u64,
    fs: Seq<FetchOutcome>,
) -> bool {
    &&& log.oracles is Some
    &&& exists|i: int|
        0 <= i < log.oracles->Some_0@.len() && #[trigger] log.oracles->Some_0@[i].address
            == row.address && log.oracles->Some_0@[i].status == Some((false, target_template_id))
    &&& exists|j: int|
        0 <= j < fs.len() && #[trigger] fs[j] == (FetchOutcome::Fetched {
            document: row.specification,
            valid: true,
        })
}

/// No oracle read as finalized, nor one of another template than the target, nor
/// one whose document failed validation, becomes an active oracle: each row that
/// acknowledging a creation log's candidates adds is of an oracle of that log read
/// as not finalized and of the target template, and holds a document found valid.
pub proof fn lemma_only_eligible_validated_oracles_stored(
    rows: Seq<ActiveOracle>,
    chain_id: u64,
    log: CreationLogReads,
    target_template_id: u64,
    fs: Seq<FetchOutcome>,
    pin_configured: bool,
)
    requires
        (extraction_of(log, target_template_id) is Ok),
        fs.len() == extraction_of(log, target_template_id)->Ok_0.len(),
    ensures
        forall|k: int|
            rows.len() <= k < ack_all(
                rows,
                chain_id,
                extraction_of(log, target_template_id)->Ok_0,
                fs,
                pin_configured,
            ).len() ==> row_is_eligible_and_valid(
                #[trigger] ack_all(
                    rows,
                    chain_id,
                    extraction_of(log, target_template_id)->Ok_0,
                    fs,
                    pin_configured,
                )[k],
                log,
                target_template_id,
                fs,
            ),
{
    let ds = extraction_of(log, target_template_id)->Ok_0;
    lemma_acknowledged_rows_are_validated(rows, chain_id, ds, fs, pin_configured);
    let after = ack_all(rows, chain_id, ds, fs, pin_configured);
    if log.created_token is None {
        assert(ds.len() == 0);
    } else {
        let rs = log.oracles->Some_0@;
        lemma_candidates_are_eligible(rs, target_template_id);
        assert forall|k: int| rows.len() <= k < after.len() implies row_is_eligible_and_valid(
            #[trigger] after[k],
            log,
            target_template_id,
            fs,
        ) by {
            assert(has_origin(after[k], ds, fs, chain_id));
            let j = choose|j: int|
                0 <= j < ds.len() && j < fs.len() && #[trigger] stored_for(after[k], ds[j], fs[j], chain_id);
            assert(has_source(rs, ds[j], target_template_id));
            let i = choose|i: int| 0 <= i < rs.len() && #[trigger] taken_from(rs[i], ds[j], target_template_id);
            assert(log.oracles->Some_0@[i].address == after[k].address);
        }
    }
}

} // verus!
