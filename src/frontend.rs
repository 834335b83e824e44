//! Message shapes exchanged with clients, and the decisions behind the two
//! client calls: submitting a transaction and asking for a processed one.
use vstd::prelude::*;
use crate::processor::{ExecError, Transaction, TxOutcome};

verus! {

/// What the ledger hands back for a transaction query.
pub struct FrontendMessage {
    pub get_tx: Option<u64>,
    pub transaction: Option<Transaction>,
    /// How the transaction ended, when it was found.
    pub outcome: Option<TxOutcome>,
}

/// A client's query for a processed transaction.
#[derive(Debug)]
pub struct GetTransaction {
    pub get_tx: String,
}

/// A client's submission: the transaction and the signing key material.
#[derive(Debug)]
pub struct RollupTransaction {
    pub sender: String,
    pub sol_transaction: Transaction,
    pub keypair_bytes: Vec<u8>,
}

#[derive(Debug)]
pub enum TransactionResponse {
    Success { message: String },
    Error { message: String },
}

/// Splits a submission into what goes to the sequencer queue, the
/// transaction and the key bytes, and the reply the client gets.
pub fn submit_transaction(body: RollupTransaction) -> (r: ((Transaction, Vec<u8>), TransactionResponse))
    ensures
        r.0.0 == body.sol_transaction,
        r.0.1 == body.keypair_bytes,
        r.1 matches TransactionResponse::Success { message } && message@ == "Transaction submitted"@,
{
    let message = "Transaction submitted".to_string();
    ((body.sol_transaction, body.keypair_bytes), TransactionResponse::Success { message })
}

/// The reply to a transaction query once the ledger has answered: the
/// transaction found, sent back under the rollup's name with no key bytes.
pub fn get_transaction(answer: FrontendMessage) -> (r: Option<RollupTransaction>)
    ensures
        answer.transaction is None <==> r is None,
        r matches Some(t) ==> t.sender@ == "Rollup RPC"@ && t.keypair_bytes@.len() == 0
            && answer.transaction == Some(t.sol_transaction),
{
    match answer.transaction {
        Some(tx) => Some(RollupTransaction {
            sender: "Rollup RPC".to_string(),
            sol_transaction: tx,
            keypair_bytes: Vec::new(),
        }),
        None => None,
    }
}

/// The text a client sees for a failed transaction.
pub open spec fn error_text(e: ExecError) -> Seq<char> {
    match e {
        ExecError::ProgramNotFound => "ProgramNotFound"@,
        ExecError::InvalidProgramImage => "InvalidProgramImage"@,
        ExecError::ArithmeticOverflow => "ArithmeticOverflow"@,
        ExecError::ProgramNotExecutable => "ProgramNotExecutable"@,
    }
}

fn error_message(e: ExecError) -> (r: String)
    ensures
        r@ == error_text(e),
{
    match e {
        ExecError::ProgramNotFound => "ProgramNotFound".to_string(),
        ExecError::InvalidProgramImage => "InvalidProgramImage".to_string(),
        ExecError::ArithmeticOverflow => "ArithmeticOverflow".to_string(),
        ExecError::ProgramNotExecutable => "ProgramNotExecutable".to_string(),
    }
}

/// The status reported to a client for a transaction query: success, the
/// failure of the transaction, or that no such transaction was processed.
pub fn transaction_status(answer: &FrontendMessage) -> (r: TransactionResponse)
    ensures
        answer.outcome is None ==> (r matches TransactionResponse::Error { message } && message@ == "Transaction not found"@),
        answer.outcome == Some(TxOutcome::Success) ==> (r matches TransactionResponse::Success { message }
            && message@ == "Transaction succeeded"@),
        answer.outcome matches Some(TxOutcome::Failed(e)) ==> (r matches TransactionResponse::Error { message }
            && message@ == error_text(e)),
{
    match answer.outcome {
        None => TransactionResponse::Error { message: "Transaction not found".to_string() },
        Some(TxOutcome::Success) => TransactionResponse::Success { message: "Transaction succeeded".to_string() },
        Some(TxOutcome::Failed(e)) => TransactionResponse::Error { message: error_message(e) },
    }
}

} // verus!
