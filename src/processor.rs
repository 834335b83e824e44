//! Batch execution engine, program cache and the degenerate fork oracle.
use vstd::prelude::*;
use std::collections::HashMap;
use std::sync::Arc;
use solana_bpf_loader_program::syscalls::create_program_runtime_environment_v1;
use solana_program_runtime::execution_budget::SVMTransactionExecutionBudget;
use solana_program_runtime::loaded_programs::{LoadProgramMetrics, ProgramCacheEntry};
use solana_svm_feature_set::SVMFeatureSet;

verus! {

broadcast use vstd::std_specs::hash::group_hash_axioms;

/// How two execution points relate to each other.
#[derive(PartialEq, Eq, Structural, Clone, Copy, Debug)]
pub enum BlockRelation {
    Ancestor,
    Descendant,
    Equal,
    Unrelated,
}

/// Fork relationship oracle for a single linear execution history.
///
/// The program cache asks how two execution points relate; with no branching
/// history every pair is reported as unrelated, and the cache is never asked
/// to invalidate entries along ancestor or descendant lines.
pub struct RollupForkGraph {}

impl RollupForkGraph {
    pub fn relationship(&self, _a: u64, _b: u64) -> (r: BlockRelation)
        ensures
            r == BlockRelation::Unrelated,
    {
        BlockRelation::Unrelated
    }
}


/// Identifier of the builtin system program, which moves balances.
pub const SYSTEM_PROGRAM_ID: u64 = 1;
/// Identifier of the builtin bytecode loader.
pub const BPF_LOADER_ID: u64 = 2;
/// Identifier of the upgradeable bytecode loader.
pub const BPF_LOADER_UPGRADEABLE_ID: u64 = 3;
/// Identifier of the token program, loaded from bytecode.
pub const TOKEN_PROGRAM_ID: u64 = 4;
/// Identifier of the second-generation token program, loaded from bytecode.
pub const TOKEN_2022_PROGRAM_ID: u64 = 5;

/// Native handler of a builtin program.
#[derive(PartialEq, Eq, Structural, Clone, Copy, Debug)]
pub enum BuiltinEntry {
    /// Moves `amount` from the first account of an instruction to the second.
    SystemTransfer,
    /// Runs bytecode programs; needs a virtual machine.
    BpfLoader,
}

/// A program cache entry.
#[derive(Clone, Debug)]
pub enum ProgramEntry {
    Builtin { name: &'static str, entry: BuiltinEntry, slot: u64, size: usize },
    Loaded { loader: u64, slot: u64, size: usize },
}

/// Failure of one transaction; the rest of its batch goes on.
#[derive(PartialEq, Eq, Structural, Clone, Copy, Debug)]
pub enum ExecError {
    ProgramNotFound,
    InvalidProgramImage,
    ArithmeticOverflow,
    /// The program is bytecode, which this engine has no machine to run.
    ProgramNotExecutable,
}

/// One instruction: a target program and the two accounts it touches.
#[derive(PartialEq, Eq, Structural, Clone, Copy, Debug)]
pub struct Instruction {
    pub program_id: u64,
    pub from: u64,
    pub to: u64,
    pub amount: u64,
}

/// A transaction: an identifier (its signature hash) and its instructions.
#[derive(Clone, Debug)]
pub struct Transaction {
    pub id: u64,
    pub instructions: Vec<Instruction>,
}

impl Transaction {
    /// A copy of the transaction, instruction for instruction.
    pub fn duplicate(&self) -> (r: Transaction)
        ensures
            r.id == self.id,
            r.instructions@ == self.instructions@,
    {
        let mut instructions: Vec<Instruction> = Vec::new();
        let mut i: usize = 0;
        while i < self.instructions.len()
            invariant
                i <= self.instructions@.len(),
                instructions@ == self.instructions@.take(i as int),
            decreases self.instructions@.len() - i,
        {
            instructions.push(self.instructions[i]);
            i = i + 1;
            assert(instructions@ =~= self.instructions@.take(i as int));
        }
        assert(self.instructions@.take(self.instructions@.len() as int) == self.instructions@);
        Transaction { id: self.id, instructions }
    }
}

/// Outcome of one transaction of a batch.
#[derive(PartialEq, Eq, Structural, Clone, Copy, Debug)]
pub enum TxOutcome {
    Success,
    Failed(ExecError),
}

/// Balance of an account in a snapshot; an absent account holds nothing.
pub open spec fn bal(s: Map<u64, u64>, k: u64) -> nat {
    if s.contains_key(k) { s[k] as nat } else { 0 }
}

/// The system program's transfer, with overflow and underflow detected.
pub open spec fn transfer_spec(s: Map<u64, u64>, from: u64, to: u64, amount: u64) -> Result<Map<u64, u64>, ExecError> {
    if bal(s, from) < amount {
        Err(ExecError::ArithmeticOverflow)
    } else {
        let s1 = s.insert(from, (bal(s, from) - amount) as u64);
        if bal(s1, to) + amount > u64::MAX {
            Err(ExecError::ArithmeticOverflow)
        } else {
            Ok(s1.insert(to, (bal(s1, to) + amount) as u64))
        }
    }
}

/// Effect of one instruction on a snapshot.
pub open spec fn exec_instr_spec(progs: Map<u64, ProgramEntry>, s: Map<u64, u64>, ins: Instruction) -> Result<Map<u64, u64>, ExecError> {
    if !progs.contains_key(ins.program_id) {
        Err(ExecError::ProgramNotFound)
    } else {
        match progs[ins.program_id] {
            ProgramEntry::Builtin { entry: BuiltinEntry::SystemTransfer, .. } => transfer_spec(s, ins.from, ins.to, ins.amount),
            _ => Err(ExecError::ProgramNotExecutable),
        }
    }
}

/// Effect of a list of instructions, applied in order; the first failure wins.
pub open spec fn exec_instrs_spec(progs: Map<u64, ProgramEntry>, s: Map<u64, u64>, instrs: Seq<Instruction>) -> Result<Map<u64, u64>, ExecError>
    decreases instrs.len(),
{
    if instrs.len() == 0 {
        Ok(s)
    } else {
        match exec_instrs_spec(progs, s, instrs.drop_last()) {
            Ok(s1) => exec_instr_spec(progs, s1, instrs.last()),
            Err(e) => Err(e),
        }
    }
}

/// Every program that an instruction of `instrs` targets is in the cache.
pub open spec fn programs_resolved(progs: Map<u64, ProgramEntry>, instrs: Seq<Instruction>) -> bool {
    forall|i: int| 0 <= i < instrs.len() ==> progs.contains_key(#[trigger] instrs[i].program_id)
}

/// Effect of one transaction: its programs are all resolved first, and a
/// missing one fails it with `ProgramNotFound` before any instruction runs;
/// then its instructions run in order.
pub open spec fn tx_result(progs: Map<u64, ProgramEntry>, s: Map<u64, u64>, instrs: Seq<Instruction>) -> Result<Map<u64, u64>, ExecError> {
    if programs_resolved(progs, instrs) {
        exec_instrs_spec(progs, s, instrs)
    } else {
        Err(ExecError::ProgramNotFound)
    }
}

/// Snapshot after one transaction: all of its changes, or none.
pub open spec fn apply_tx(progs: Map<u64, ProgramEntry>, s: Map<u64, u64>, instrs: Seq<Instruction>) -> Map<u64, u64> {
    match tx_result(progs, s, instrs) {
        Ok(s1) => s1,
        Err(_) => s,
    }
}

/// Outcome of one transaction.
pub open spec fn outcome_of(progs: Map<u64, ProgramEntry>, s: Map<u64, u64>, instrs: Seq<Instruction>) -> TxOutcome {
    match tx_result(progs, s, instrs) {
        Ok(_) => TxOutcome::Success,
        Err(e) => TxOutcome::Failed(e),
    }
}

/// Snapshot after a batch, transactions applied in order.
pub open spec fn run_batch(progs: Map<u64, ProgramEntry>, s: Map<u64, u64>, txs: Seq<Transaction>) -> Map<u64, u64>
    decreases txs.len(),
{
    if txs.len() == 0 {
        s
    } else {
        apply_tx(progs, run_batch(progs, s, txs.drop_last()), txs.last().instructions@)
    }
}

/// Outcomes of a batch, one per transaction.
pub open spec fn batch_outcomes(progs: Map<u64, ProgramEntry>, s: Map<u64, u64>, txs: Seq<Transaction>) -> Seq<TxOutcome>
    decreases txs.len(),
{
    if txs.len() == 0 {
        Seq::empty()
    } else {
        batch_outcomes(progs, s, txs.drop_last()).push(
            outcome_of(progs, run_batch(progs, s, txs.drop_last()), txs.last().instructions@))
    }
}

fn balance_of(s: &HashMap<u64, u64>, k: u64) -> (r: u64)
    ensures
        r == bal(s@, k),
{
    match s.get(&k) {
        Some(v) => *v,
        None => 0,
    }
}

fn transfer(s: &mut HashMap<u64, u64>, from: u64, to: u64, amount: u64) -> (r: Result<(), ExecError>)
    ensures
        match transfer_spec(old(s)@, from, to, amount) {
            Ok(s1) => r is Ok && final(s)@ == s1,
            Err(e) => r == Err::<(), ExecError>(e) && final(s)@ == old(s)@,
        },
{
    let fb = balance_of(s, from);
    if fb < amount {
        return Err(ExecError::ArithmeticOverflow);
    }
    let ghost s0 = s@;
    let ghost s1 = s0.insert(from, (fb - amount) as u64);
    let tb: u64 = if from == to { fb - amount } else { balance_of(s, to) };
    assert(tb == bal(s1, to));
    if tb > u64::MAX - amount {
        return Err(ExecError::ArithmeticOverflow);
    }
    s.insert(from, fb - amount);
    s.insert(to, tb + amount);
    Ok(())
}


/// Whether the bytecode loader (the upgradeable one where `upgradeable`)
/// loads and verifies `bytes` as a program under the default feature set and
/// execution budget.
pub uninterp spec fn image_loads(upgradeable: bool, bytes: Seq<u8>) -> bool;

/// Relies on solana_program_runtime's `ProgramCacheEntry::new`, in an
/// environment from solana_bpf_loader_program's
/// `create_program_runtime_environment_v1`: whether the image loads. The
/// outcome depends on the bytes and the loader alone.
#[verifier::external_body]
fn program_image_loads(upgradeable: bool, bytes: &Vec<u8>) -> (r: bool)
    ensures
        r == image_loads(upgradeable, bytes@),
{
    let loader = if upgradeable { solana_sdk::bpf_loader_upgradeable::id() } else { solana_sdk::bpf_loader::id() };
    let env = create_program_runtime_environment_v1(&SVMFeatureSet::default(), &SVMTransactionExecutionBudget::default(), false, false);
    match env {
        Ok(env) => ProgramCacheEntry::new(&loader, Arc::new(env), 1, 1, bytes, bytes.len(), &mut LoadProgramMetrics::default()).is_ok(),
        Err(_) => false,
    }
}

/// Whether the loader with identifier `loader` accepts `bytes` as a program.
pub open spec fn valid_image(loader: u64, bytes: Seq<u8>) -> bool {
    (loader == BPF_LOADER_ID && image_loads(false, bytes))
        || (loader == BPF_LOADER_UPGRADEABLE_ID && image_loads(true, bytes))
}

/// The program execution environment: program identifiers mapped to code.
pub struct ProgramCache {
    programs: HashMap<u64, ProgramEntry>,
}

impl View for ProgramCache {
    type V = Map<u64, ProgramEntry>;

    closed spec fn view(&self) -> Map<u64, ProgramEntry> {
        self.programs@
    }
}

impl ProgramCache {
    pub fn new() -> (r: ProgramCache)
        ensures
            r@ == Map::<u64, ProgramEntry>::empty(),
    {
        ProgramCache { programs: HashMap::new() }
    }

    /// Registers a native handler; a later registration of the same id wins.
    pub fn register_builtin(&mut self, program_id: u64, name: &'static str, entry: BuiltinEntry, slot: u64, size: usize)
        ensures
            final(self)@ == old(self)@.insert(program_id, ProgramEntry::Builtin { name, entry, slot, size }),
    {
        self.programs.insert(program_id, ProgramEntry::Builtin { name, entry, slot, size });
    }

    /// Decodes account bytes as a bytecode program of `loader` and caches it.
    /// Only the two bytecode loaders can load programs.
    pub fn load_program_from_account(&mut self, program_id: u64, loader: u64, slot: u64, bytes: &Vec<u8>) -> (r: Result<(), ExecError>)
        ensures
            valid_image(loader, bytes@) ==> r is Ok && final(self)@ == old(self)@.insert(
                program_id,
                ProgramEntry::Loaded { loader, slot, size: bytes@.len() as usize },
            ),
            !valid_image(loader, bytes@) ==> r == Err::<(), ExecError>(ExecError::InvalidProgramImage)
                && final(self)@ == old(self)@,
    {
        let loads = if loader == BPF_LOADER_ID {
            program_image_loads(false, bytes)
        } else if loader == BPF_LOADER_UPGRADEABLE_ID {
            program_image_loads(true, bytes)
        } else {
            false
        };
        if !loads {
            return Err(ExecError::InvalidProgramImage);
        }
        self.programs.insert(program_id, ProgramEntry::Loaded { loader, slot, size: bytes.len() });
        Ok(())
    }

    /// The cached entry of a program.
    pub fn lookup(&self, program_id: u64) -> (r: Result<&ProgramEntry, ExecError>)
        ensures
            self@.contains_key(program_id) ==> r == Ok::<&ProgramEntry, ExecError>(&self@[program_id]),
            !self@.contains_key(program_id) ==> r == Err::<&ProgramEntry, ExecError>(ExecError::ProgramNotFound),
    {
        match self.programs.get(&program_id) {
            Some(e) => Ok(e),
            None => Err(ExecError::ProgramNotFound),
        }
    }

    fn execute_instruction(&self, s: &mut HashMap<u64, u64>, ins: Instruction) -> (r: Result<(), ExecError>)
        ensures
            match exec_instr_spec(self@, old(s)@, ins) {
                Ok(s1) => r is Ok && final(s)@ == s1,
                Err(e) => r == Err::<(), ExecError>(e) && final(s)@ == old(s)@,
            },
    {
        let entry = self.lookup(ins.program_id)?;
        match entry {
            ProgramEntry::Builtin { entry: BuiltinEntry::SystemTransfer, .. } => transfer(s, ins.from, ins.to, ins.amount),
            _ => Err(ExecError::ProgramNotExecutable),
        }
    }

    /// Executes one transaction atomically against `state`: on failure no
    /// change of it stays.
    pub fn execute_transaction(&self, state: &mut HashMap<u64, u64>, tx: &Transaction) -> (r: TxOutcome)
        ensures
            r == outcome_of(self@, old(state)@, tx.instructions@),
            final(state)@ == apply_tx(self@, old(state)@, tx.instructions@),
    {
        let n = tx.instructions.len();
        let mut i: usize = 0;
        while i < n
            invariant
                n == tx.instructions@.len(),
                i <= n,
                forall|j: int| 0 <= j < i ==> self@.contains_key(#[trigger] tx.instructions@[j].program_id),
            decreases n - i,
        {
            if self.lookup(tx.instructions[i].program_id).is_err() {
                assert(!programs_resolved(self@, tx.instructions@));
                return TxOutcome::Failed(ExecError::ProgramNotFound);
            }
            i = i + 1;
        }
        let mut work = state.clone();
        let mut i: usize = 0;
        while i < n
            invariant
                n == tx.instructions@.len(),
                i <= n,
                programs_resolved(self@, tx.instructions@),
                exec_instrs_spec(self@, state@, tx.instructions@.take(i as int)) == Ok::<Map<u64, u64>, ExecError>(work@),
            decreases n - i,
        {
            let ghost before = work@;
            proof {
                assert(tx.instructions@.take(i + 1).drop_last() == tx.instructions@.take(i as int));
            }
            match self.execute_instruction(&mut work, tx.instructions[i]) {
                Ok(()) => {},
                Err(e) => {
                    proof { lemma_exec_err_prefix(self@, state@, tx.instructions@, i as int + 1, e); }
                    return TxOutcome::Failed(e);
                },
            }
            i = i + 1;
        }
        assert(tx.instructions@.take(n as int) == tx.instructions@);
        *state = work;
        TxOutcome::Success
    }

    /// Executes a batch in order against `state`; each transaction either
    /// commits whole or fails alone.
    pub fn execute_batch(&self, state: &mut HashMap<u64, u64>, txs: &Vec<Transaction>) -> (r: Vec<TxOutcome>)
        ensures
            r@ == batch_outcomes(self@, old(state)@, txs@),
            final(state)@ == run_batch(self@, old(state)@, txs@),
    {
        let ghost s0 = state@;
        let mut out: Vec<TxOutcome> = Vec::new();
        let mut i: usize = 0;
        while i < txs.len()
            invariant
                i <= txs@.len(),
                out@ == batch_outcomes(self@, s0, txs@.take(i as int)),
                state@ == run_batch(self@, s0, txs@.take(i as int)),
            decreases txs@.len() - i,
        {
            proof {
                assert(txs@.take(i + 1).drop_last() == txs@.take(i as int));
            }
            let o = self.execute_transaction(state, &txs[i]);
            out.push(o);
            i = i + 1;
        }
        assert(txs@.take(txs@.len() as int) == txs@);
        out
    }
}

/// Pre-execution check result handed to the engine with each transaction.
#[derive(PartialEq, Eq, Structural, Clone, Copy, Debug)]
pub struct CheckedTransactionDetails {
    pub nonce: Option<u64>,
    pub lamports_per_signature: u64,
}

/// Pre-execution checks for `len` transactions. Fee and nonce validation
/// happen upstream, so every check reports success.
pub fn get_transaction_check_results(len: usize, lamports_per_signature: u64) -> (r: Vec<Result<CheckedTransactionDetails, ExecError>>)
    ensures
        r@.len() == len,
        forall|i: int| 0 <= i < len ==> #[trigger] r@[i] == Ok::<CheckedTransactionDetails, ExecError>(
            CheckedTransactionDetails { nonce: None, lamports_per_signature },
        ),
{
    let mut r: Vec<Result<CheckedTransactionDetails, ExecError>> = Vec::new();
    let mut i: usize = 0;
    while i < len
        invariant
            i <= len,
            r@.len() == i,
            forall|j: int| 0 <= j < i ==> #[trigger] r@[j] == Ok::<CheckedTransactionDetails, ExecError>(
                CheckedTransactionDetails { nonce: None, lamports_per_signature },
            ),
        decreases len - i,
    {
        r.push(Ok(CheckedTransactionDetails { nonce: None, lamports_per_signature }));
        i = i + 1;
    }
    r
}

/// The engine set up for use: its fork oracle, execution point and programs.
pub struct TransactionBatchProcessor {
    pub slot: u64,
    pub epoch: u64,
    pub fork_graph: RollupForkGraph,
    pub program_cache: ProgramCache,
}

/// Programs loaded from the token program accounts found, where present.
pub open spec fn with_token_programs(token: Option<Seq<u8>>, token_2022: Option<Seq<u8>>) -> Map<u64, ProgramEntry> {
    let m0 = Map::<u64, ProgramEntry>::empty();
    let m1 = match token {
        Some(b) => m0.insert(TOKEN_PROGRAM_ID, ProgramEntry::Loaded { loader: BPF_LOADER_ID, slot: 1, size: b.len() as usize }),
        None => m0,
    };
    match token_2022 {
        Some(b) => m1.insert(TOKEN_2022_PROGRAM_ID, ProgramEntry::Loaded { loader: BPF_LOADER_UPGRADEABLE_ID, slot: 1, size: b.len() as usize }),
        None => m1,
    }
}

/// The program cache of a freshly made processor.
pub open spec fn initial_programs(token: Option<Seq<u8>>, token_2022: Option<Seq<u8>>) -> Map<u64, ProgramEntry> {
    with_token_programs(token, token_2022)
        .insert(SYSTEM_PROGRAM_ID, ProgramEntry::Builtin { name: "system_program", entry: BuiltinEntry::SystemTransfer, slot: 0, size: 14 })
        .insert(BPF_LOADER_ID, ProgramEntry::Builtin { name: "solana_bpf_loader_program", entry: BuiltinEntry::BpfLoader, slot: 0, size: 25 })
}

pub open spec fn image_ok(loader: u64, b: Option<Seq<u8>>) -> bool {
    match b {
        Some(b) => valid_image(loader, b),
        None => true,
    }
}

pub open spec fn view_opt(b: Option<&Vec<u8>>) -> Option<Seq<u8>> {
    match b {
        Some(v) => Some(v@),
        None => None,
    }
}

/// Sets up a processor at slot 1 and epoch 1 with the mocked fork oracle,
/// loads the token programs from their accounts' bytes where those accounts
/// exist, and registers the system program and the bytecode loader as
/// builtins.
pub fn create_transaction_batch_processor(
    token_account: Option<&Vec<u8>>,
    token_2022_account: Option<&Vec<u8>>,
    fork_graph: RollupForkGraph,
) -> (r: Result<TransactionBatchProcessor, ExecError>)
    ensures
        image_ok(BPF_LOADER_ID, view_opt(token_account)) && image_ok(BPF_LOADER_UPGRADEABLE_ID, view_opt(token_2022_account)) <==> r is Ok,
        r is Err ==> r == Err::<TransactionBatchProcessor, ExecError>(ExecError::InvalidProgramImage),
        r matches Ok(p) ==> p.slot == 1 && p.epoch == 1
            && p.program_cache@ == initial_programs(view_opt(token_account), view_opt(token_2022_account)),
{
    let mut cache = ProgramCache::new();
    match token_account {
        Some(bytes) => {
            cache.load_program_from_account(TOKEN_PROGRAM_ID, BPF_LOADER_ID, 1, bytes)?;
        },
        None => {},
    }
    match token_2022_account {
        Some(bytes) => {
            cache.load_program_from_account(TOKEN_2022_PROGRAM_ID, BPF_LOADER_UPGRADEABLE_ID, 1, bytes)?;
        },
        None => {},
    }
    cache.register_builtin(SYSTEM_PROGRAM_ID, "system_program", BuiltinEntry::SystemTransfer, 0, 14);
    cache.register_builtin(BPF_LOADER_ID, "solana_bpf_loader_program", BuiltinEntry::BpfLoader, 0, 25);
    Ok(TransactionBatchProcessor { slot: 1, epoch: 1, fork_graph, program_cache: cache })
}

/// Every instruction of `instrs` touches only accounts of `a`.
pub open spec fn touches_only(instrs: Seq<Instruction>, a: Set<u64>) -> bool {
    forall|i: int| 0 <= i < instrs.len() ==> a.contains(#[trigger] instrs[i].from) && a.contains(instrs[i].to)
}

/// Two snapshots agree on account `k`: both lack it or both hold the same balance.
pub open spec fn same_at(s: Map<u64, u64>, u: Map<u64, u64>, k: u64) -> bool {
    s.contains_key(k) == u.contains_key(k) && (s.contains_key(k) ==> s[k] == u[k])
}

pub open spec fn agree_on(s: Map<u64, u64>, u: Map<u64, u64>, a: Set<u64>) -> bool {
    forall|k: u64| a.contains(k) ==> #[trigger] same_at(s, u, k)
}

pub open spec fn agree_off(s: Map<u64, u64>, u: Map<u64, u64>, a: Set<u64>) -> bool {
    forall|k: u64| !a.contains(k) ==> #[trigger] same_at(s, u, k)
}

proof fn lemma_instr_frame(progs: Map<u64, ProgramEntry>, s: Map<u64, u64>, u: Map<u64, u64>, ins: Instruction, a: Set<u64>)
    requires
        a.contains(ins.from),
        a.contains(ins.to),
        agree_on(s, u, a),
    ensures
        exec_instr_spec(progs, s, ins) is Ok <==> exec_instr_spec(progs, u, ins) is Ok,
        exec_instr_spec(progs, s, ins) matches Err(e) ==> exec_instr_spec(progs, u, ins) == Err::<Map<u64, u64>, ExecError>(e),
        exec_instr_spec(progs, s, ins) matches Ok(s1) ==> (exec_instr_spec(progs, u, ins) matches Ok(u1)
            && agree_on(s1, u1, a) && agree_off(s, s1, a) && agree_off(u, u1, a)),
{
    assert(same_at(s, u, ins.from));
    assert(same_at(s, u, ins.to));
    assert(bal(s, ins.from) == bal(u, ins.from));
    assert(bal(s, ins.to) == bal(u, ins.to));
    if exec_instr_spec(progs, s, ins) is Ok {
        let s1 = exec_instr_spec(progs, s, ins)->Ok_0;
        let u1 = exec_instr_spec(progs, u, ins)->Ok_0;
        assert forall|k: u64| a.contains(k) implies #[trigger] same_at(s1, u1, k) by {
            assert(same_at(s, u, k));
        }
        assert forall|k: u64| !a.contains(k) implies #[trigger] same_at(s, s1, k) by {}
        assert forall|k: u64| !a.contains(k) implies #[trigger] same_at(u, u1, k) by {}
    }
}

proof fn lemma_instrs_frame(progs: Map<u64, ProgramEntry>, s: Map<u64, u64>, u: Map<u64, u64>, instrs: Seq<Instruction>, a: Set<u64>)
    requires
        touches_only(instrs, a),
        agree_on(s, u, a),
    ensures
        exec_instrs_spec(progs, s, instrs) is Ok <==> exec_instrs_spec(progs, u, instrs) is Ok,
        exec_instrs_spec(progs, s, instrs) matches Err(e) ==> exec_instrs_spec(progs, u, instrs) == Err::<Map<u64, u64>, ExecError>(e),
        exec_instrs_spec(progs, s, instrs) matches Ok(s1) ==> (exec_instrs_spec(progs, u, instrs) matches Ok(u1)
            && agree_on(s1, u1, a) && agree_off(s, s1, a) && agree_off(u, u1, a)),
    decreases instrs.len(),
{
    if instrs.len() == 0 {
        assert forall|k: u64| !a.contains(k) implies #[trigger] same_at(s, s, k) by {}
        assert forall|k: u64| !a.contains(k) implies #[trigger] same_at(u, u, k) by {}
    } else {
        let init = instrs.drop_last();
        assert(touches_only(init, a)) by {
            assert forall|i: int| 0 <= i < init.len() implies a.contains(#[trigger] init[i].from) && a.contains(init[i].to) by {
                assert(init[i] == instrs[i]);
            }
        }
        lemma_instrs_frame(progs, s, u, init, a);
        if exec_instrs_spec(progs, s, init) is Ok {
            let s1 = exec_instrs_spec(progs, s, init)->Ok_0;
            let u1 = exec_instrs_spec(progs, u, init)->Ok_0;
            let last = instrs.last();
            assert(a.contains(instrs[instrs.len() - 1].from));
            lemma_instr_frame(progs, s1, u1, last, a);
            if exec_instr_spec(progs, s1, last) is Ok {
                let s2 = exec_instr_spec(progs, s1, last)->Ok_0;
                let u2 = exec_instr_spec(progs, u1, last)->Ok_0;
                assert forall|k: u64| !a.contains(k) implies #[trigger] same_at(s, s2, k) by {
                    assert(same_at(s, s1, k));
                    assert(same_at(s1, s2, k));
                }
                assert forall|k: u64| !a.contains(k) implies #[trigger] same_at(u, u2, k) by {
                    assert(same_at(u, u1, k));
                    assert(same_at(u1, u2, k));
                }
            }
        }
    }
}

/// What one transaction does to a snapshot, framed: on two snapshots that
/// agree on the accounts it touches it has the same outcome, leaves them
/// agreeing there, and changes nothing elsewhere.
proof fn lemma_apply_frame(progs: Map<u64, ProgramEntry>, s: Map<u64, u64>, u: Map<u64, u64>, instrs: Seq<Instruction>, a: Set<u64>)
    requires
        touches_only(instrs, a),
        agree_on(s, u, a),
    ensures
        outcome_of(progs, s, instrs) == outcome_of(progs, u, instrs),
        agree_on(apply_tx(progs, s, instrs), apply_tx(progs, u, instrs), a),
        agree_off(s, apply_tx(progs, s, instrs), a),
        agree_off(u, apply_tx(progs, u, instrs), a),
{
    lemma_instrs_frame(progs, s, u, instrs, a);
    if tx_result(progs, s, instrs) is Err {
        assert forall|k: u64| !a.contains(k) implies #[trigger] same_at(s, s, k) by {}
        assert forall|k: u64| !a.contains(k) implies #[trigger] same_at(u, u, k) by {}
    }
}

/// Some instruction of some transaction of `txs` names account `k`.
pub open spec fn batch_names(txs: Seq<Transaction>, k: u64) -> bool {
    exists|i: int, j: int|
        0 <= i < txs.len() && 0 <= j < txs[i].instructions@.len()
            && (#[trigger] txs[i].instructions@[j].from == k || txs[i].instructions@[j].to == k)
}

/// Accounts named by the transactions of a batch.
pub open spec fn batch_accounts(txs: Seq<Transaction>) -> Set<u64> {
    Set::new(|k: u64| batch_names(txs, k))
}

/// Some instruction of a transaction of `txs` that ended in success, among
/// the rows before `i` and the first `j` instructions of row `i`, names `k`.
pub open spec fn seen(txs: Seq<Transaction>, outcomes: Seq<TxOutcome>, i: int, j: int, k: u64) -> bool {
    exists|a: int, b: int|
        0 <= a < txs.len() && 0 <= b < txs[a].instructions@.len() && (a < i || (a == i && b < j))
            && outcomes[a] == TxOutcome::Success
            && (#[trigger] txs[a].instructions@[b].from == k || txs[a].instructions@[b].to == k)
}

/// Some instruction of a transaction of `txs` that ended in success names `k`.
pub open spec fn committed_names(txs: Seq<Transaction>, outcomes: Seq<TxOutcome>, k: u64) -> bool {
    seen(txs, outcomes, txs.len() as int, 0, k)
}

pub(crate) fn holds_id(ids: &Vec<u64>, k: u64) -> (r: bool)
    ensures
        r == ids@.contains(k),
{
    let mut i: usize = 0;
    while i < ids.len()
        invariant
            i <= ids@.len(),
            forall|j: int| 0 <= j < i ==> ids@[j] != k,
        decreases ids@.len() - i,
    {
        if ids[i] == k {
            return true;
        }
        i = i + 1;
    }
    false
}

pub(crate) fn add_id(ids: &mut Vec<u64>, k: u64)
    requires
        old(ids)@.no_duplicates(),
    ensures
        final(ids)@.no_duplicates(),
        forall|x: u64| final(ids)@.contains(x) <==> (old(ids)@.contains(x) || x == k),
{
    if !holds_id(ids, k) {
        ids.push(k);
        proof {
            assert forall|x: u64| ids@.contains(x) <==> (old(ids)@.contains(x) || x == k) by {
                if old(ids)@.contains(x) {
                    let j = choose|j: int| 0 <= j < old(ids)@.len() && old(ids)@[j] == x;
                    assert(ids@[j] == x);
                }
                if x == k {
                    assert(ids@[ids@.len() - 1] == x);
                }
                if ids@.contains(x) && x != k {
                    let j = choose|j: int| 0 <= j < ids@.len() && ids@[j] == x;
                    assert(j < old(ids)@.len());
                    assert(old(ids)@[j] == x);
                }
            }
        }
    }
}

/// Some instruction of `instrs` names account `k`.
pub open spec fn names_in(instrs: Seq<Instruction>, k: u64) -> bool {
    exists|j: int| 0 <= j < instrs.len() && (#[trigger] instrs[j].from == k || instrs[j].to == k)
}

/// The accounts a transaction names, each once.
pub fn tx_accounts(tx: &Transaction) -> (r: Vec<u64>)
    ensures
        r@.no_duplicates(),
        forall|k: u64| r@.contains(k) <==> names_in(tx.instructions@, k),
{
    let mut r: Vec<u64> = Vec::new();
    let mut j: usize = 0;
    while j < tx.instructions.len()
        invariant
            j <= tx.instructions@.len(),
            r@.no_duplicates(),
            forall|k: u64| r@.contains(k) <==> names_in(tx.instructions@.take(j as int), k),
        decreases tx.instructions@.len() - j,
    {
        let ins = tx.instructions[j];
        add_id(&mut r, ins.from);
        add_id(&mut r, ins.to);
        proof {
            let pre = tx.instructions@.take(j as int);
            let post = tx.instructions@.take(j + 1);
            assert(pre.len() == j);
            assert(post.len() == j + 1);
            assert forall|k: u64| r@.contains(k) <==> names_in(post, k) by {
                if names_in(post, k) {
                    let m = choose|m: int| 0 <= m < post.len() && (#[trigger] post[m].from == k || post[m].to == k);
                    if m < j {
                        assert(post[m] == tx.instructions@[m]);
                        assert(pre[m] == tx.instructions@[m]);
                        assert(names_in(pre, k));
                    } else {
                        assert(post[m] == ins);
                    }
                }
                if names_in(pre, k) {
                    let m = choose|m: int| 0 <= m < pre.len() && (#[trigger] pre[m].from == k || pre[m].to == k);
                    assert(pre[m] == tx.instructions@[m]);
                    assert(post[m] == tx.instructions@[m]);
                }
                if k == ins.from || k == ins.to {
                    assert(post[j as int] == ins);
                }
            }
        }
        j = j + 1;
    }
    assert(tx.instructions@.take(tx.instructions@.len() as int) == tx.instructions@);
    r
}

/// The accounts that a batch commits: each account named by an instruction
/// of a transaction that ended in success, once.
pub fn committed_accounts(txs: &Vec<Transaction>, outcomes: &Vec<TxOutcome>) -> (r: Vec<u64>)
    requires
        txs@.len() == outcomes@.len(),
    ensures
        r@.no_duplicates(),
        forall|k: u64| r@.contains(k) <==> committed_names(txs@, outcomes@, k),
{
    let mut r: Vec<u64> = Vec::new();
    let mut i: usize = 0;
    while i < txs.len()
        invariant
            i <= txs@.len(),
            txs@.len() == outcomes@.len(),
            r@.no_duplicates(),
            forall|k: u64| r@.contains(k) <==> seen(txs@, outcomes@, i as int, 0, k),
        decreases txs@.len() - i,
    {
        let instrs = &txs[i].instructions;
        let ok = outcomes[i] == TxOutcome::Success;
        let mut j: usize = 0;
        while ok && j < instrs.len()
            invariant
                i < txs@.len(),
                txs@.len() == outcomes@.len(),
                *instrs == txs@[i as int].instructions,
                ok == (outcomes@[i as int] == TxOutcome::Success),
                j <= instrs@.len(),
                r@.no_duplicates(),
                forall|k: u64| r@.contains(k) <==> seen(txs@, outcomes@, i as int, j as int, k),
            decreases instrs@.len() - j,
        {
            let ins = instrs[j];
            add_id(&mut r, ins.from);
            add_id(&mut r, ins.to);
            proof {
                assert forall|k: u64| r@.contains(k) <==> seen(txs@, outcomes@, i as int, j + 1, k) by {
                    if seen(txs@, outcomes@, i as int, j + 1, k) {
                        let (a, b) = choose|a: int, b: int|
                            0 <= a < txs@.len() && 0 <= b < txs@[a].instructions@.len() && (a < i || (a == i && b < j + 1))
                                && outcomes@[a] == TxOutcome::Success
                                && (#[trigger] txs@[a].instructions@[b].from == k || txs@[a].instructions@[b].to == k);
                        if !(a == i && b == j) {
                            assert(seen(txs@, outcomes@, i as int, j as int, k));
                        }
                    }
                    if seen(txs@, outcomes@, i as int, j as int, k) {
                        let (a, b) = choose|a: int, b: int|
                            0 <= a < txs@.len() && 0 <= b < txs@[a].instructions@.len() && (a < i || (a == i && b < j))
                                && outcomes@[a] == TxOutcome::Success
                                && (#[trigger] txs@[a].instructions@[b].from == k || txs@[a].instructions@[b].to == k);
                        assert(seen(txs@, outcomes@, i as int, j + 1, k));
                    }
                    if k == ins.from || k == ins.to {
                        assert(txs@[i as int].instructions@[j as int] == ins);
                        assert(seen(txs@, outcomes@, i as int, j + 1, k));
                    }
                }
            }
            j = j + 1;
        }
        assert(!(ok && j < instrs@.len()));
        proof {
            assert forall|k: u64| r@.contains(k) <==> seen(txs@, outcomes@, i + 1, 0, k) by {
                if seen(txs@, outcomes@, i + 1, 0, k) {
                    let (a, b) = choose|a: int, b: int|
                        0 <= a < txs@.len() && 0 <= b < txs@[a].instructions@.len() && (a < i + 1 || (a == i + 1 && b < 0))
                            && outcomes@[a] == TxOutcome::Success
                            && (#[trigger] txs@[a].instructions@[b].from == k || txs@[a].instructions@[b].to == k);
                    if a == i {
                        assert(ok);
                        assert(j >= instrs@.len());
                        assert(b < j);
                    }
                    assert(seen(txs@, outcomes@, i as int, j as int, k));
                }
                if seen(txs@, outcomes@, i as int, j as int, k) {
                    let (a, b) = choose|a: int, b: int|
                        0 <= a < txs@.len() && 0 <= b < txs@[a].instructions@.len() && (a < i || (a == i && b < j))
                            && outcomes@[a] == TxOutcome::Success
                            && (#[trigger] txs@[a].instructions@[b].from == k || txs@[a].instructions@[b].to == k);
                    assert(seen(txs@, outcomes@, i + 1, 0, k));
                }
            }
        }
        i = i + 1;
    }
    r
}

/// A batch leaves every account that none of its instructions names as it
/// was: present with the same balance, or absent.
pub proof fn lemma_batch_keeps_unnamed_accounts(progs: Map<u64, ProgramEntry>, s: Map<u64, u64>, txs: Seq<Transaction>)
    ensures
        agree_off(s, run_batch(progs, s, txs), batch_accounts(txs)),
    decreases txs.len(),
{
    let a = batch_accounts(txs);
    if txs.len() == 0 {
        assert forall|k: u64| !a.contains(k) implies #[trigger] same_at(s, run_batch(progs, s, txs), k) by {}
    } else {
        let init = txs.drop_last();
        lemma_batch_keeps_unnamed_accounts(progs, s, init);
        let s1 = run_batch(progs, s, init);
        let last = txs.last().instructions@;
        assert(touches_only(last, a)) by {
            assert forall|j: int| 0 <= j < last.len() implies a.contains(#[trigger] last[j].from) && a.contains(last[j].to) by {
                assert(txs[txs.len() - 1].instructions@[j] == last[j]);
                assert(batch_names(txs, last[j].from));
                assert(batch_names(txs, last[j].to));
            }
        }
        assert forall|k: u64| a.contains(k) implies #[trigger] same_at(s1, s1, k) by {}
        lemma_apply_frame(progs, s1, s1, last, a);
        assert forall|k: u64| !a.contains(k) implies #[trigger] same_at(s, run_batch(progs, s, txs), k) by {
            if !batch_accounts(init).contains(k) {
                assert(same_at(s, s1, k));
            } else {
                let (i, j) = choose|i: int, j: int|
                    0 <= i < init.len() && 0 <= j < init[i].instructions@.len()
                        && (#[trigger] init[i].instructions@[j].from == k || init[i].instructions@[j].to == k);
                assert(init[i] == txs[i]);
                assert(batch_names(txs, k));
            }
            assert(same_at(s1, apply_tx(progs, s1, last), k));
        }
    }
}

/// Every transaction of `txs` touches only accounts of `a`.
pub open spec fn batch_touches_only(txs: Seq<Transaction>, a: Set<u64>) -> bool {
    forall|i: int| 0 <= i < txs.len() ==> touches_only(#[trigger] txs[i].instructions@, a)
}

proof fn lemma_batch_frame(progs: Map<u64, ProgramEntry>, s: Map<u64, u64>, u: Map<u64, u64>, txs: Seq<Transaction>, a: Set<u64>)
    requires
        batch_touches_only(txs, a),
        agree_on(s, u, a),
    ensures
        batch_outcomes(progs, s, txs) == batch_outcomes(progs, u, txs),
        agree_on(run_batch(progs, s, txs), run_batch(progs, u, txs), a),
        agree_off(s, run_batch(progs, s, txs), a),
        agree_off(u, run_batch(progs, u, txs), a),
    decreases txs.len(),
{
    if txs.len() == 0 {
        assert forall|k: u64| !a.contains(k) implies #[trigger] same_at(s, s, k) by {}
        assert forall|k: u64| !a.contains(k) implies #[trigger] same_at(u, u, k) by {}
    } else {
        let init = txs.drop_last();
        assert(batch_touches_only(init, a)) by {
            assert forall|i: int| 0 <= i < init.len() implies touches_only(#[trigger] init[i].instructions@, a) by {
                assert(init[i] == txs[i]);
            }
        }
        lemma_batch_frame(progs, s, u, init, a);
        let s1 = run_batch(progs, s, init);
        let u1 = run_batch(progs, u, init);
        let last = txs.last().instructions@;
        assert(touches_only(txs[txs.len() - 1].instructions@, a));
        lemma_apply_frame(progs, s1, u1, last, a);
        let s2 = apply_tx(progs, s1, last);
        let u2 = apply_tx(progs, u1, last);
        assert forall|k: u64| !a.contains(k) implies #[trigger] same_at(s, s2, k) by {
            assert(same_at(s, s1, k));
            assert(same_at(s1, s2, k));
        }
        assert forall|k: u64| !a.contains(k) implies #[trigger] same_at(u, u2, k) by {
            assert(same_at(u, u1, k));
            assert(same_at(u1, u2, k));
        }
    }
}

proof fn lemma_run_concat(progs: Map<u64, ProgramEntry>, s: Map<u64, u64>, p: Seq<Transaction>, q: Seq<Transaction>)
    ensures
        run_batch(progs, s, p + q) == run_batch(progs, run_batch(progs, s, p), q),
        batch_outcomes(progs, s, p + q) == batch_outcomes(progs, s, p) + batch_outcomes(progs, run_batch(progs, s, p), q),
    decreases q.len(),
{
    if q.len() == 0 {
        assert(p + q =~= p);
        assert(batch_outcomes(progs, s, p) + Seq::<TxOutcome>::empty() =~= batch_outcomes(progs, s, p));
    } else {
        lemma_run_concat(progs, s, p, q.drop_last());
        assert((p + q).drop_last() =~= p + q.drop_last());
        assert((p + q).last() == q.last());
        let sp = run_batch(progs, s, p);
        assert(batch_outcomes(progs, s, p + q) =~= batch_outcomes(progs, s, p) + batch_outcomes(progs, sp, q));
    }
}

/// Batches over disjoint account sets commute: running one after the other
/// in either order gives the same final state, and every transaction has the
/// same outcome in both orders (the outcome it has when its batch runs alone).
pub proof fn lemma_disjoint_batches_commute(
    progs: Map<u64, ProgramEntry>,
    s: Map<u64, u64>,
    ts_a: Seq<Transaction>,
    ts_b: Seq<Transaction>,
    a: Set<u64>,
    b: Set<u64>,
)
    requires
        a.disjoint(b),
        batch_touches_only(ts_a, a),
        batch_touches_only(ts_b, b),
    ensures
        run_batch(progs, s, ts_a + ts_b) == run_batch(progs, s, ts_b + ts_a),
        batch_outcomes(progs, s, ts_a + ts_b) == batch_outcomes(progs, s, ts_a) + batch_outcomes(progs, s, ts_b),
        batch_outcomes(progs, s, ts_b + ts_a) == batch_outcomes(progs, s, ts_b) + batch_outcomes(progs, s, ts_a),
{
    let s1 = run_batch(progs, s, ts_a);
    let s2 = run_batch(progs, s, ts_b);
    assert forall|k: u64| a.contains(k) implies #[trigger] same_at(s, s, k) by {}
    assert forall|k: u64| b.contains(k) implies #[trigger] same_at(s, s, k) by {}
    lemma_batch_frame(progs, s, s, ts_a, a);
    lemma_batch_frame(progs, s, s, ts_b, b);
    assert forall|k: u64| b.contains(k) implies #[trigger] same_at(s, s1, k) by {
        assert(!a.contains(k));
    }
    assert forall|k: u64| a.contains(k) implies #[trigger] same_at(s, s2, k) by {
        assert(!b.contains(k));
    }
    lemma_batch_frame(progs, s, s1, ts_b, b);
    lemma_batch_frame(progs, s, s2, ts_a, a);
    lemma_run_concat(progs, s, ts_a, ts_b);
    lemma_run_concat(progs, s, ts_b, ts_a);
    let x = run_batch(progs, s1, ts_b);
    let y = run_batch(progs, s2, ts_a);
    assert forall|k: u64| #[trigger] same_at(x, y, k) by {
        if a.contains(k) {
            assert(!b.contains(k));
            assert(same_at(s1, x, k));
            assert(same_at(s1, y, k));
        } else if b.contains(k) {
            assert(same_at(s2, y, k));
            assert(same_at(s2, x, k));
        } else {
            assert(same_at(s, s1, k));
            assert(same_at(s1, x, k));
            assert(same_at(s, s2, k));
            assert(same_at(s2, y, k));
        }
    }
    assert forall|k: u64| #[trigger] x.contains_key(k) <==> y.contains_key(k) by {
        assert(same_at(x, y, k));
    }
    assert forall|k: u64| #[trigger] x.contains_key(k) implies x[k] == y[k] by {
        assert(same_at(x, y, k));
    }
    assert(x =~= y);
}

/// Transactions over disjoint account sets commute: applying them in either
/// order gives the same final state, and each has the same outcome in both
/// orders.
pub proof fn lemma_disjoint_transactions_commute(
    progs: Map<u64, ProgramEntry>,
    s: Map<u64, u64>,
    t1: Transaction,
    t2: Transaction,
    a: Set<u64>,
    b: Set<u64>,
)
    requires
        a.disjoint(b),
        touches_only(t1.instructions@, a),
        touches_only(t2.instructions@, b),
    ensures
        run_batch(progs, s, seq![t1, t2]) == run_batch(progs, s, seq![t2, t1]),
        batch_outcomes(progs, s, seq![t1, t2]) == seq![
            batch_outcomes(progs, s, seq![t2, t1])[1],
            batch_outcomes(progs, s, seq![t2, t1])[0],
        ],
{
    let p = seq![t1];
    let q = seq![t2];
    assert(batch_touches_only(p, a)) by {
        assert forall|i: int| 0 <= i < p.len() implies touches_only(#[trigger] p[i].instructions@, a) by {
            assert(p[i] == t1);
        }
    }
    assert(batch_touches_only(q, b)) by {
        assert forall|i: int| 0 <= i < q.len() implies touches_only(#[trigger] q[i].instructions@, b) by {
            assert(q[i] == t2);
        }
    }
    lemma_disjoint_batches_commute(progs, s, p, q, a, b);
    assert(p + q =~= seq![t1, t2]);
    assert(q + p =~= seq![t2, t1]);
    assert(p.drop_last() =~= Seq::<Transaction>::empty());
    assert(q.drop_last() =~= Seq::<Transaction>::empty());
    assert(batch_outcomes(progs, s, Seq::<Transaction>::empty()) == Seq::<TxOutcome>::empty());
    assert(batch_outcomes(progs, s, p) =~= seq![outcome_of(progs, s, t1.instructions@)]);
    assert(batch_outcomes(progs, s, q) =~= seq![outcome_of(progs, s, t2.instructions@)]);
    assert(batch_outcomes(progs, s, seq![t1, t2]) =~= seq![
        batch_outcomes(progs, s, seq![t2, t1])[1],
        batch_outcomes(progs, s, seq![t2, t1])[0],
    ]);
}

/// Snapshot after a batch whose transactions come with pre-execution check
/// results: a transaction whose check failed is not run.
pub open spec fn run_checked(
    progs: Map<u64, ProgramEntry>,
    s: Map<u64, u64>,
    txs: Seq<Transaction>,
    checks: Seq<Result<CheckedTransactionDetails, ExecError>>,
) -> Map<u64, u64>
    decreases txs.len(),
{
    if txs.len() == 0 {
        s
    } else {
        let s1 = run_checked(progs, s, txs.drop_last(), checks);
        match checks[txs.len() - 1] {
            Ok(_) => apply_tx(progs, s1, txs.last().instructions@),
            Err(_) => s1,
        }
    }
}

/// Outcomes of such a batch: a failed check is the transaction's outcome.
pub open spec fn checked_outcomes(
    progs: Map<u64, ProgramEntry>,
    s: Map<u64, u64>,
    txs: Seq<Transaction>,
    checks: Seq<Result<CheckedTransactionDetails, ExecError>>,
) -> Seq<TxOutcome>
    decreases txs.len(),
{
    if txs.len() == 0 {
        Seq::empty()
    } else {
        let s1 = run_checked(progs, s, txs.drop_last(), checks);
        checked_outcomes(progs, s, txs.drop_last(), checks).push(
            match checks[txs.len() - 1] {
                Ok(_) => outcome_of(progs, s1, txs.last().instructions@),
                Err(e) => TxOutcome::Failed(e),
            },
        )
    }
}

impl ProgramCache {
    /// Executes a batch in order, each transaction with its pre-execution
    /// check result; a transaction whose check failed keeps that failure as
    /// its outcome and changes nothing.
    pub fn execute_checked_batch(
        &self,
        state: &mut HashMap<u64, u64>,
        txs: &Vec<Transaction>,
        checks: &Vec<Result<CheckedTransactionDetails, ExecError>>,
    ) -> (r: Vec<TxOutcome>)
        requires
            txs@.len() == checks@.len(),
        ensures
            r@ == checked_outcomes(self@, old(state)@, txs@, checks@),
            final(state)@ == run_checked(self@, old(state)@, txs@, checks@),
    {
        let ghost s0 = state@;
        let mut out: Vec<TxOutcome> = Vec::new();
        let mut i: usize = 0;
        while i < txs.len()
            invariant
                i <= txs@.len(),
                txs@.len() == checks@.len(),
                out@ == checked_outcomes(self@, s0, txs@.take(i as int), checks@),
                state@ == run_checked(self@, s0, txs@.take(i as int), checks@),
            decreases txs@.len() - i,
        {
            proof {
                assert(txs@.take(i + 1).drop_last() == txs@.take(i as int));
            }
            let o = match checks[i] {
                Ok(_) => self.execute_transaction(state, &txs[i]),
                Err(e) => TxOutcome::Failed(e),
            };
            out.push(o);
            i = i + 1;
        }
        assert(txs@.take(txs@.len() as int) == txs@);
        out
    }
}

/// A transaction with an instruction that targets a program the cache does
/// not hold fails with `ProgramNotFound` and leaves every account as it was,
/// whatever its other instructions would do.
pub proof fn lemma_unknown_program_changes_nothing(progs: Map<u64, ProgramEntry>, s: Map<u64, u64>, instrs: Seq<Instruction>, i: int)
    requires
        0 <= i < instrs.len(),
        !progs.contains_key(instrs[i].program_id),
    ensures
        outcome_of(progs, s, instrs) == TxOutcome::Failed(ExecError::ProgramNotFound),
        apply_tx(progs, s, instrs) == s,
{
    assert(!programs_resolved(progs, instrs));
}

/// Once a prefix of the instructions fails, the whole list fails the same way.
proof fn lemma_exec_err_prefix(progs: Map<u64, ProgramEntry>, s: Map<u64, u64>, instrs: Seq<Instruction>, k: int, e: ExecError)
    requires
        0 <= k <= instrs.len(),
        exec_instrs_spec(progs, s, instrs.take(k)) == Err::<Map<u64, u64>, ExecError>(e),
    ensures
        exec_instrs_spec(progs, s, instrs) == Err::<Map<u64, u64>, ExecError>(e),
    decreases instrs.len() - k,
{
    if k < instrs.len() {
        assert(instrs.take(k + 1).drop_last() == instrs.take(k));
        lemma_exec_err_prefix(progs, s, instrs, k + 1, e);
    } else {
        assert(instrs.take(k) == instrs);
    }
}

} // verus!
