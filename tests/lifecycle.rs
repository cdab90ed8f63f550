use defillama_answerer::address::Address;
use defillama_answerer::answering::{due_for_answering, measurement_elapsed, record_answers};
use defillama_answerer::commons::{
    acknowledge_active_oracle, acknowledge_active_oracles, classify_oracle,
    oracle_data_from_reads, parse_kpi_token_creation_log, parse_kpi_token_creation_logs,
    AckOutcome, CreationLogReads, DefiLlamaOracleData, ExtractionError, FetchOutcome,
    OracleReads, OracleVerdict,
};
use defillama_answerer::listener::{Action, Listener, Update, FULL_PROGRESS};
use defillama_answerer::models::{ActiveOracle, ActiveOracles, Snapshot, Snapshots, StoreError};

fn addr(n: u64) -> Address {
    Address { high: 0, middle: 0, low: n }
}

fn reads(address: Address, finalized: bool, template_id: u64, cid: &str, ts: u64) -> OracleReads {
    OracleReads {
        address,
        status: Some((finalized, template_id)),
        specification_cid: Some(cid.to_string()),
        measurement_timestamp: Some(ts),
    }
}

fn candidate(address: Address, cid: &str, ts: u64) -> DefiLlamaOracleData {
    DefiLlamaOracleData {
        address,
        measurement_timestamp: ts,
        specification_cid: cid.to_string(),
    }
}

fn valid(doc: &str) -> FetchOutcome {
    FetchOutcome::Fetched { document: doc.to_string(), valid: true }
}

/// Runs the checkpoint actions of an update against the store and returns the
/// other actions.
fn dispatch(listener: &mut Listener, snapshots: &mut Snapshots, update: Update<u32>) -> Vec<Action<u32>> {
    let actions = listener.on_update(update);
    let mut rest = Vec::new();
    for action in actions {
        match action {
            Action::UpdateCheckpoint(b) => listener.update_checkpoint_block_number(snapshots, b),
            other => rest.push(other),
        }
    }
    rest
}

fn checkpoint(snapshots: &Snapshots, chain_id: u64) -> Option<u64> {
    Snapshot::get_for_chain_id(snapshots, chain_id).map(|s| s.block_number)
}

#[test]
fn creation_log_with_finalized_and_eligible_oracle() {
    let a = addr(0xa);
    let b = addr(0xb);
    let log = CreationLogReads {
        created_token: Some(addr(0x70)),
        oracles: Some(vec![reads(a, true, 7, "cid-a", 1000), reads(b, false, 7, "cid-b", 2000)]),
    };
    let found = parse_kpi_token_creation_log(&log, 7).unwrap();
    assert_eq!(found.len(), 1);
    assert_eq!(found[0].address, b);
    assert_eq!(found[0].specification_cid, "cid-b");
    assert_eq!(found[0].measurement_timestamp, 2000);

    let mut store = ActiveOracles::new();
    let fetched = vec![valid("{\"metric\":\"tvl\"}")];
    let outcomes = acknowledge_active_oracles(&mut store, 10, &found, &fetched, false);
    assert_eq!(outcomes, vec![Ok(AckOutcome::Stored { pin_requested: false })]);
    assert_eq!(store.len(), 1);
    let rows = ActiveOracle::get_all_for_chain_id(&store, 10);
    assert_eq!(rows.len(), 1);
    assert_eq!(rows[0].chain_id, 10);
    assert_eq!(rows[0].address, b);
    assert_eq!(rows[0].measurement_timestamp, 2000);
    assert_eq!(rows[0].specification, "{\"metric\":\"tvl\"}");
}

#[test]
fn past_batches_move_checkpoint_and_end_replay() {
    let mut listener = Listener::new(10, 7);
    let mut snapshots = Snapshots::new();
    let rest = dispatch(
        &mut listener,
        &mut snapshots,
        Update::PastBatchCompleted { from_block: 100, to_block: 200, progress: 5000 },
    );
    assert!(rest.is_empty());
    assert_eq!(checkpoint(&snapshots, 10), Some(200));
    assert!(listener.scanning_past);
    dispatch(
        &mut listener,
        &mut snapshots,
        Update::PastBatchCompleted { from_block: 200, to_block: 300, progress: FULL_PROGRESS },
    );
    assert_eq!(checkpoint(&snapshots, 10), Some(300));
    assert!(!listener.scanning_past);
}

#[test]
fn live_new_block_sweeps_then_moves_checkpoint() {
    let mut listener = Listener::new(10, 7);
    listener.scanning_past = false;
    let mut snapshots = Snapshots::new();
    Snapshot::update(&mut snapshots, 10, 300);
    let actions = listener.on_update(Update::<u32>::NewBlock(301));
    assert_eq!(actions.len(), 2);
    assert!(matches!(actions[0], Action::AnswerActiveOracles));
    assert!(matches!(actions[1], Action::UpdateCheckpoint(301)));

    let mut store = ActiveOracles::new();
    let due = due_for_answering(&store, 10, 5000);
    assert!(due.is_empty());
    record_answers(&mut store, &due, &Vec::new());
    assert_eq!(store.len(), 0);
    listener.update_checkpoint_block_number(&mut snapshots, 301);
    assert_eq!(checkpoint(&snapshots, 10), Some(301));
}

#[test]
fn exhausted_fetch_drops_only_that_candidate() {
    let mut store = ActiveOracles::new();
    let found = vec![candidate(addr(1), "cid-1", 100), candidate(addr(2), "cid-2", 200)];
    let fetched = vec![FetchOutcome::Exhausted, valid("doc-2")];
    let outcomes = acknowledge_active_oracles(&mut store, 10, &found, &fetched, true);
    assert_eq!(
        outcomes,
        vec![Ok(AckOutcome::FetchExhausted), Ok(AckOutcome::Stored { pin_requested: true })]
    );
    let rows = ActiveOracle::get_all_for_chain_id(&store, 10);
    assert_eq!(rows.len(), 1);
    assert_eq!(rows[0].address, addr(2));
}

#[test]
fn future_oracle_untouched_until_due_and_answered() {
    let mut store = ActiveOracles::new();
    ActiveOracle::create(&mut store, addr(5), 10, 1_000, "doc".to_string()).unwrap();

    let due = due_for_answering(&store, 10, 999);
    assert!(due.is_empty());
    record_answers(&mut store, &due, &Vec::new());
    assert_eq!(store.len(), 1);

    let due = due_for_answering(&store, 10, 1_500);
    assert_eq!(due.len(), 1);
    assert_eq!(due[0].address, addr(5));
    record_answers(&mut store, &due, &vec![true]);
    assert_eq!(store.len(), 0);
}

#[test]
fn failed_submission_keeps_oracle_for_next_block() {
    let mut store = ActiveOracles::new();
    ActiveOracle::create(&mut store, addr(5), 10, 1_000, "doc".to_string()).unwrap();
    ActiveOracle::create(&mut store, addr(6), 10, 1_000, "doc".to_string()).unwrap();
    let due = due_for_answering(&store, 10, 2_000);
    assert_eq!(due.len(), 2);
    record_answers(&mut store, &due, &vec![false, true]);
    let rows = ActiveOracle::get_all_for_chain_id(&store, 10);
    assert_eq!(rows.len(), 1);
    assert_eq!(rows[0].address, addr(5));
}

#[test]
fn checkpoint_never_ahead_of_processed_updates() {
    let mut listener = Listener::new(3, 7);
    let mut snapshots = Snapshots::new();
    let stream = vec![
        Update::PastBatchCompleted { from_block: 0, to_block: 50, progress: 2500 },
        Update::NewLog { log: 1u32, block_number: Some(60) },
        Update::NewBlock(70),
        Update::PastBatchCompleted { from_block: 50, to_block: 100, progress: FULL_PROGRESS },
        Update::NewBlock(101),
        Update::NewLog { log: 2u32, block_number: Some(101) },
    ];
    let lasts = [50u64, 60, 70, 100, 101, 101];
    let expected = [50u64, 50, 50, 100, 101, 101];
    for (i, u) in stream.into_iter().enumerate() {
        dispatch(&mut listener, &mut snapshots, u);
        let c = checkpoint(&snapshots, 3).unwrap();
        assert!(c <= lasts[i]);
        assert_eq!(c, expected[i]);
    }
}

#[test]
fn new_block_during_replay_does_not_move_checkpoint() {
    let mut listener = Listener::new(10, 7);
    let actions = listener.on_update(Update::<u32>::NewBlock(500));
    assert_eq!(actions.len(), 1);
    assert!(matches!(actions[0], Action::AnswerActiveOracles));
    assert!(listener.scanning_past);
    let mut snapshots = Snapshots::new();
    let rest = dispatch(&mut listener, &mut snapshots, Update::NewBlock(501));
    assert_eq!(rest.len(), 1);
    assert_eq!(checkpoint(&snapshots, 10), None);
}

#[test]
fn new_log_routes_to_extraction() {
    let mut listener = Listener::new(10, 7);
    let actions = listener.on_update(Update::NewLog { log: 9u32, block_number: Some(42) });
    assert_eq!(actions.len(), 1);
    assert!(matches!(actions[0], Action::HandleLog { log: 9, block_number: 42 }));
    let actions = listener.on_update(Update::NewLog { log: 9u32, block_number: None });
    assert!(actions.is_empty());
}

#[test]
fn create_twice_is_refused_and_delete_is_idempotent() {
    let mut store = ActiveOracles::new();
    assert_eq!(ActiveOracle::create(&mut store, addr(1), 10, 5, "a".to_string()), Ok(()));
    assert_eq!(
        ActiveOracle::create(&mut store, addr(1), 10, 6, "b".to_string()),
        Err(StoreError::DuplicateOracle)
    );
    assert_eq!(ActiveOracle::create(&mut store, addr(1), 11, 6, "b".to_string()), Ok(()));
    assert_eq!(store.len(), 2);
    let row = ActiveOracle::get_all_for_chain_id(&store, 10).remove(0);
    assert_eq!(row.specification, "a");
    row.delete(&mut store);
    assert_eq!(store.len(), 1);
    row.delete(&mut store);
    assert_eq!(store.len(), 1);
    assert_eq!(ActiveOracle::get_all_for_chain_id(&store, 11).len(), 1);
}

#[test]
fn finalized_or_foreign_template_oracles_are_not_candidates() {
    assert_eq!(classify_oracle(true, 7, 7), OracleVerdict::Finalized);
    assert_eq!(classify_oracle(false, 8, 7), OracleVerdict::WrongTemplate);
    assert_eq!(classify_oracle(false, 7, 7), OracleVerdict::Eligible);
    let log = CreationLogReads {
        created_token: Some(addr(0x70)),
        oracles: Some(vec![reads(addr(1), true, 7, "x", 1), reads(addr(2), false, 8, "y", 1)]),
    };
    assert!(parse_kpi_token_creation_log(&log, 7).unwrap().is_empty());
}

#[test]
fn failed_reads_skip_only_that_oracle() {
    let mut broken = reads(addr(1), false, 7, "x", 1);
    broken.measurement_timestamp = None;
    assert!(oracle_data_from_reads(&broken, 7).is_none());
    let mut no_status = reads(addr(2), false, 7, "y", 1);
    no_status.status = None;
    let log = CreationLogReads {
        created_token: Some(addr(0x70)),
        oracles: Some(vec![broken, no_status, reads(addr(3), false, 7, "z", 9)]),
    };
    let found = parse_kpi_token_creation_log(&log, 7).unwrap();
    assert_eq!(found.len(), 1);
    assert_eq!(found[0].address, addr(3));
}

#[test]
fn unrelated_log_yields_no_candidates_and_failed_list_is_an_error() {
    let unrelated = CreationLogReads { created_token: None, oracles: None };
    assert!(parse_kpi_token_creation_log(&unrelated, 7).unwrap().is_empty());
    let failed = CreationLogReads { created_token: Some(addr(1)), oracles: None };
    assert_eq!(
        parse_kpi_token_creation_log(&failed, 7).err(),
        Some(ExtractionError::OracleListUnavailable)
    );
}

#[test]
fn many_logs_skip_failed_ones() {
    let logs = vec![
        CreationLogReads {
            created_token: Some(addr(1)),
            oracles: Some(vec![reads(addr(11), false, 7, "a", 1)]),
        },
        CreationLogReads { created_token: Some(addr(2)), oracles: None },
        CreationLogReads { created_token: None, oracles: None },
        CreationLogReads {
            created_token: Some(addr(3)),
            oracles: Some(vec![reads(addr(31), false, 7, "b", 2), reads(addr(32), false, 7, "c", 3)]),
        },
    ];
    let found = parse_kpi_token_creation_logs(&logs, 7);
    let addresses: Vec<Address> = found.iter().map(|d| d.address).collect();
    assert_eq!(addresses, vec![addr(11), addr(31), addr(32)]);
}

#[test]
fn invalid_specification_is_never_stored() {
    let mut store = ActiveOracles::new();
    let r = acknowledge_active_oracle(
        &mut store,
        10,
        candidate(addr(4), "cid", 10),
        FetchOutcome::Fetched { document: "bad".to_string(), valid: false },
        true,
    );
    assert_eq!(r, Ok(AckOutcome::Rejected));
    assert_eq!(store.len(), 0);
}

#[test]
fn duplicate_acknowledgement_is_a_store_error() {
    let mut store = ActiveOracles::new();
    let r = acknowledge_active_oracle(&mut store, 10, candidate(addr(4), "cid", 10), valid("d"), false);
    assert_eq!(r, Ok(AckOutcome::Stored { pin_requested: false }));
    let r = acknowledge_active_oracle(&mut store, 10, candidate(addr(4), "cid", 10), valid("d"), false);
    assert_eq!(r, Err(StoreError::DuplicateOracle));
    assert_eq!(store.len(), 1);
}

#[test]
fn measurement_time_boundary_is_due() {
    let mut store = ActiveOracles::new();
    ActiveOracle::create(&mut store, addr(1), 10, 100, "d".to_string()).unwrap();
    ActiveOracle::create(&mut store, addr(2), 11, 50, "d".to_string()).unwrap();
    let rows = ActiveOracle::get_all_for_chain_id(&store, 10);
    assert!(measurement_elapsed(&rows[0], 100));
    assert!(!measurement_elapsed(&rows[0], 99));
    let due = due_for_answering(&store, 10, 100);
    assert_eq!(due.len(), 1);
    assert_eq!(due[0].address, addr(1));
}

#[test]
fn checkpoint_upsert_overwrites() {
    let mut snapshots = Snapshots::new();
    assert_eq!(Snapshot::get_for_chain_id(&snapshots, 1), None);
    Snapshot::update(&mut snapshots, 1, 10);
    Snapshot::update(&mut snapshots, 1, 10);
    assert_eq!(Snapshot::get_for_chain_id(&snapshots, 1), Some(Snapshot { chain_id: 1, block_number: 10 }));
    Snapshot::update(&mut snapshots, 2, 7);
    Snapshot::update(&mut snapshots, 1, 20);
    assert_eq!(checkpoint(&snapshots, 1), Some(20));
    assert_eq!(checkpoint(&snapshots, 2), Some(7));
}
