use std::collections::HashMap;

use rollup_core::frontend::{get_transaction, submit_transaction, transaction_status, RollupTransaction, TransactionResponse};
use rollup_core::ledger::{Account, LedgerError, ProcessedRecord, RollupDb};
use rollup_core::processor::{
    BuiltinEntry, ExecError, Instruction, ProgramCache, Transaction, TxOutcome, SYSTEM_PROGRAM_ID,
};

const A: u64 = 1;
const B: u64 = 2;
const X: u64 = 3;
const Y: u64 = 4;

fn account(lamports: u64) -> Account {
    Account { lamports, data: Vec::new(), owner: SYSTEM_PROGRAM_ID, executable: false, rent_epoch: 0 }
}

fn transfer_tx(id: u64, program_id: u64, from: u64, to: u64, amount: u64) -> Transaction {
    Transaction { id, instructions: vec![Instruction { program_id, from, to, amount }] }
}

fn record(id: u64) -> ProcessedRecord {
    ProcessedRecord { transaction: transfer_tx(id, SYSTEM_PROGRAM_ID, A, B, 1), outcome: TxOutcome::Success }
}

fn cache() -> ProgramCache {
    let mut c = ProgramCache::new();
    c.register_builtin(SYSTEM_PROGRAM_ID, "system_program", BuiltinEntry::SystemTransfer, 0, 14);
    c
}

/// One lock-execute-commit cycle of the ledger for a single transaction.
fn run(db: &mut RollupDb, c: &ProgramCache, t: &Transaction, holder: u64) -> Result<TxOutcome, LedgerError> {
    let ids = vec![t.instructions[0].from, t.instructions[0].to];
    db.lock_accounts(&ids, holder)?;
    let mut snapshot = HashMap::new();
    for id in &ids {
        if let Ok(a) = db.get_account(*id) {
            snapshot.insert(*id, a.lamports);
        }
    }
    let outcome = c.execute_transaction(&mut snapshot, t);
    for id in &ids {
        if let Some(l) = snapshot.get(id) {
            db.add_new_data(*id, holder, account(*l))?;
        }
    }
    db.add_processed_transaction(ProcessedRecord { transaction: t.clone(), outcome })?;
    db.unlock_accounts(&ids, holder);
    Ok(outcome)
}

fn funded_db() -> RollupDb {
    let mut db = RollupDb::new();
    db.lock_accounts(&vec![A, B], 0).unwrap();
    db.add_new_data(A, 0, account(100)).unwrap();
    db.add_new_data(B, 0, account(0)).unwrap();
    db.unlock_accounts(&vec![A, B], 0);
    db
}

#[test]
fn transfer_is_committed_and_recorded() {
    let mut db = funded_db();
    let t1 = transfer_tx(100, SYSTEM_PROGRAM_ID, A, B, 30);
    assert_eq!(run(&mut db, &cache(), &t1, 7), Ok(TxOutcome::Success));
    assert_eq!(db.get_account(A).unwrap().lamports, 70);
    assert_eq!(db.get_account(B).unwrap().lamports, 30);
    let rec = db.get_transaction_by_hash(100).unwrap();
    assert_eq!(rec.outcome, TxOutcome::Success);
    assert_eq!(rec.transaction.id, 100);
}

#[test]
fn unknown_program_is_recorded_as_failure() {
    let mut db = funded_db();
    let t2 = transfer_tx(101, 77, A, B, 30);
    assert_eq!(run(&mut db, &cache(), &t2, 7), Ok(TxOutcome::Failed(ExecError::ProgramNotFound)));
    assert_eq!(db.get_account(A).unwrap().lamports, 100);
    assert_eq!(db.get_account(B).unwrap().lamports, 0);
    assert_eq!(db.get_transaction_by_hash(101).unwrap().outcome, TxOutcome::Failed(ExecError::ProgramNotFound));
    let answer = db.frontend_get_tx(101);
    assert_eq!(answer.outcome, Some(TxOutcome::Failed(ExecError::ProgramNotFound)));
    match transaction_status(&answer) {
        TransactionResponse::Error { message } => assert_eq!(message, "ProgramNotFound"),
        TransactionResponse::Success { .. } => panic!("failure reported as success"),
    }
}

#[test]
fn status_reports_success_and_absence() {
    let mut db = funded_db();
    run(&mut db, &cache(), &transfer_tx(102, SYSTEM_PROGRAM_ID, A, B, 1), 7).unwrap();
    match transaction_status(&db.frontend_get_tx(102)) {
        TransactionResponse::Success { message } => assert_eq!(message, "Transaction succeeded"),
        TransactionResponse::Error { .. } => panic!("success reported as failure"),
    }
    match transaction_status(&db.frontend_get_tx(103)) {
        TransactionResponse::Error { message } => assert_eq!(message, "Transaction not found"),
        TransactionResponse::Success { .. } => panic!("absent transaction reported"),
    }
}

#[test]
fn duplicate_transaction_is_refused() {
    let mut db = RollupDb::new();
    assert_eq!(db.add_processed_transaction(record(5)), Ok(()));
    let again = ProcessedRecord { transaction: transfer_tx(5, 9, B, A, 3), outcome: TxOutcome::Failed(ExecError::ArithmeticOverflow) };
    assert_eq!(db.add_processed_transaction(again), Err(LedgerError::DuplicateTransaction));
    let rec = db.get_transaction_by_hash(5).unwrap();
    assert_eq!(rec.outcome, TxOutcome::Success);
    assert_eq!(rec.transaction.instructions[0].program_id, SYSTEM_PROGRAM_ID);
}

#[test]
fn denied_lock_leaves_nothing_locked() {
    let mut db = RollupDb::new();
    assert_eq!(db.lock_accounts(&vec![Y], 1), Ok(()));
    assert_eq!(db.lock_accounts(&vec![X, Y], 2), Err(LedgerError::AccountBusy));
    assert_eq!(db.lock_accounts(&vec![X], 3), Ok(()));
    assert_eq!(db.add_new_data(X, 2, account(1)), Err(LedgerError::NotLocked));
    assert_eq!(db.add_new_data(X, 3, account(1)), Ok(()));
}

#[test]
fn overlapping_settlement_is_refused() {
    let mut db = RollupDb::new();
    for id in 0..12u64 {
        db.add_processed_transaction(record(id)).unwrap();
    }
    assert_eq!(db.add_settle_proof(42, 5, 10), Ok(()));
    assert_eq!(db.add_settle_proof(43, 8, 12), Err(LedgerError::RangeAlreadySettled));
    assert_eq!(db.add_settle_proof(44, 5, 10), Err(LedgerError::RangeAlreadySettled));
    assert_eq!(db.add_settle_proof(45, 10, 12), Ok(()));
    assert_eq!(db.add_settle_proof(46, 0, 5), Err(LedgerError::RangeNotContiguous));
}

#[test]
fn settlement_after_a_gap_is_refused() {
    let mut db = RollupDb::new();
    for id in 0..8u64 {
        db.add_processed_transaction(record(id)).unwrap();
    }
    assert_eq!(db.add_settle_proof(1, 0, 2), Ok(()));
    assert_eq!(db.add_settle_proof(2, 5, 7), Err(LedgerError::RangeNotContiguous));
    assert_eq!(db.add_settle_proof(3, 2, 5), Ok(()));
    assert_eq!(db.add_settle_proof(4, 5, 7), Ok(()));
    assert_eq!(db.add_settle_proof(5, 6, 8), Err(LedgerError::RangeAlreadySettled));
}

#[test]
fn malformed_settlement_range_is_refused() {
    let mut db = RollupDb::new();
    for id in 0..4u64 {
        db.add_processed_transaction(record(id)).unwrap();
    }
    assert_eq!(db.add_settle_proof(1, 2, 2), Err(LedgerError::RangeNotContiguous));
    assert_eq!(db.add_settle_proof(1, 3, 1), Err(LedgerError::RangeNotContiguous));
    assert_eq!(db.add_settle_proof(1, 0, 5), Err(LedgerError::RangeNotContiguous));
    assert_eq!(db.add_settle_proof(1, 0, 4), Ok(()));
}

#[test]
fn second_writer_is_refused_until_release() {
    let mut db = funded_db();
    let c = cache();
    let t1 = transfer_tx(200, SYSTEM_PROGRAM_ID, A, B, 10);
    let t2 = transfer_tx(201, SYSTEM_PROGRAM_ID, A, B, 20);
    assert_eq!(db.lock_accounts(&vec![A], 50), Ok(()));
    assert_eq!(run(&mut db, &c, &t1, 51), Err(LedgerError::AccountBusy));
    db.unlock_accounts(&vec![A], 50);
    assert_eq!(run(&mut db, &c, &t1, 51), Ok(TxOutcome::Success));
    assert_eq!(run(&mut db, &c, &t2, 52), Ok(TxOutcome::Success));
    assert_eq!(db.get_account(A).unwrap().lamports, 70);
    assert_eq!(db.get_account(B).unwrap().lamports, 30);
}

#[test]
fn unlock_keeps_other_holders() {
    let mut db = RollupDb::new();
    db.lock_accounts(&vec![X], 1).unwrap();
    db.unlock_accounts(&vec![X], 2);
    assert_eq!(db.lock_accounts(&vec![X], 2), Err(LedgerError::AccountBusy));
    db.unlock_accounts(&vec![X], 1);
    assert_eq!(db.lock_accounts(&vec![X], 2), Ok(()));
}

#[test]
fn missing_items_are_not_found() {
    let db = RollupDb::new();
    assert!(matches!(db.get_account(A), Err(LedgerError::NotFound)));
    assert!(matches!(db.get_transaction_by_hash(9), Err(LedgerError::NotFound)));
    let m = db.frontend_get_tx(9);
    assert_eq!(m.get_tx, Some(9));
    assert!(m.transaction.is_none());
    assert!(get_transaction(m).is_none());
}

#[test]
fn query_returns_processed_transaction() {
    let mut db = RollupDb::new();
    db.add_processed_transaction(record(8)).unwrap();
    let m = db.frontend_get_tx(8);
    assert_eq!(m.transaction.as_ref().unwrap().id, 8);
    let reply = get_transaction(m).unwrap();
    assert_eq!(reply.sender, "Rollup RPC");
    assert!(reply.keypair_bytes.is_empty());
    assert_eq!(reply.sol_transaction.id, 8);
}

#[test]
fn submission_is_forwarded() {
    let body = RollupTransaction { sender: "client".to_string(), sol_transaction: transfer_tx(3, 1, A, B, 4), keypair_bytes: vec![1, 2, 3] };
    let ((t, key), resp) = submit_transaction(body);
    assert_eq!(t.id, 3);
    assert_eq!(key, vec![1, 2, 3]);
    match resp {
        TransactionResponse::Success { message } => assert_eq!(message, "Transaction submitted"),
        TransactionResponse::Error { .. } => panic!("submission refused"),
    }
}

#[test]
fn cycle_commits_transfer() {
    let mut db = funded_db();
    let t1 = transfer_tx(300, SYSTEM_PROGRAM_ID, A, B, 30);
    assert_eq!(db.process_transaction(&cache(), t1, 1), Ok(TxOutcome::Success));
    assert_eq!(db.get_account(A).unwrap().lamports, 70);
    assert_eq!(db.get_account(B).unwrap().lamports, 30);
    assert_eq!(db.get_transaction_by_hash(300).unwrap().outcome, TxOutcome::Success);
    assert_eq!(db.lock_accounts(&vec![A, B], 2), Ok(()));
}

#[test]
fn cycle_records_unknown_program() {
    let mut db = funded_db();
    let t2 = transfer_tx(301, 77, A, B, 30);
    assert_eq!(db.process_transaction(&cache(), t2, 1), Ok(TxOutcome::Failed(ExecError::ProgramNotFound)));
    assert_eq!(db.get_account(A).unwrap().lamports, 100);
    assert_eq!(db.get_account(B).unwrap().lamports, 0);
    match transaction_status(&db.frontend_get_tx(301)) {
        TransactionResponse::Error { message } => assert_eq!(message, "ProgramNotFound"),
        TransactionResponse::Success { .. } => panic!("failure reported as success"),
    }
}

#[test]
fn cycle_refuses_duplicates_and_held_accounts() {
    let mut db = funded_db();
    let c = cache();
    assert_eq!(db.process_transaction(&c, transfer_tx(302, SYSTEM_PROGRAM_ID, A, B, 10), 1), Ok(TxOutcome::Success));
    assert_eq!(db.process_transaction(&c, transfer_tx(302, SYSTEM_PROGRAM_ID, A, B, 10), 1), Err(LedgerError::DuplicateTransaction));
    db.lock_accounts(&vec![A], 9).unwrap();
    assert_eq!(db.process_transaction(&c, transfer_tx(303, SYSTEM_PROGRAM_ID, A, B, 20), 1), Err(LedgerError::AccountBusy));
    assert_eq!(db.get_account(A).unwrap().lamports, 90);
    db.unlock_accounts(&vec![A], 9);
    assert_eq!(db.process_transaction(&c, transfer_tx(303, SYSTEM_PROGRAM_ID, A, B, 20), 1), Ok(TxOutcome::Success));
    assert_eq!(db.get_account(A).unwrap().lamports, 70);
    assert_eq!(db.get_account(B).unwrap().lamports, 30);
}

#[test]
fn cycle_order_of_disjoint_transactions_does_not_matter() {
    let c = cache();
    let ta = transfer_tx(310, SYSTEM_PROGRAM_ID, A, B, 25);
    let tb = transfer_tx(311, SYSTEM_PROGRAM_ID, X, Y, 3);
    let mut first = funded_db();
    let mut second = funded_db();
    for db in [&mut first, &mut second] {
        db.lock_accounts(&vec![X], 0).unwrap();
        db.add_new_data(X, 0, account(5)).unwrap();
        db.unlock_accounts(&vec![X], 0);
    }
    let o1 = (first.process_transaction(&c, ta.clone(), 1), first.process_transaction(&c, tb.clone(), 2));
    let o2 = (second.process_transaction(&c, tb, 2), second.process_transaction(&c, ta, 1));
    assert_eq!(o1.0, o2.1);
    assert_eq!(o1.1, o2.0);
    for id in [A, B, X, Y] {
        assert_eq!(first.get_account(id).unwrap().lamports, second.get_account(id).unwrap().lamports);
    }
    assert_eq!(first.get_account(Y).unwrap().lamports, 3);
    assert_eq!(first.get_account(B).unwrap().lamports, 25);
}
