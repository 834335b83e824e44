//! The ledger actor: sole owner of account state, the lock table, the
//! processed-transaction log and the settlement proofs. Every change goes
//! through one of its operations, one message at a time.
use vstd::prelude::*;
use std::collections::HashMap;
use crate::frontend::FrontendMessage;
use crate::processor::{
    lemma_unknown_program_changes_nothing, ExecError, apply_tx, holds_id, names_in, Instruction, ProgramEntry, outcome_of, tx_accounts, ProgramCache, Transaction, TxOutcome, SYSTEM_PROGRAM_ID,
};

verus! {

broadcast use vstd::std_specs::hash::group_hash_axioms;

/// Committed state of one account.
#[derive(Clone, Debug)]
pub struct Account {
    pub lamports: u64,
    pub data: Vec<u8>,
    pub owner: u64,
    pub executable: bool,
    pub rent_epoch: u64,
}

/// A transaction with its execution outcome.
#[derive(Clone, Debug)]
pub struct ProcessedRecord {
    pub transaction: Transaction,
    pub outcome: TxOutcome,
}

/// An attestation that log entries `start..end` are final.
#[derive(PartialEq, Eq, Structural, Clone, Copy, Debug)]
pub struct SettleProof {
    pub proof: u64,
    pub start: usize,
    pub end: usize,
}

#[derive(PartialEq, Eq, Structural, Clone, Copy, Debug)]
pub enum LedgerError {
    AccountBusy,
    NotLocked,
    DuplicateTransaction,
    NotFound,
    RangeAlreadySettled,
    RangeNotContiguous,
}

impl Account {
    /// A copy of the account, byte for byte.
    pub fn duplicate(&self) -> (r: Account)
        ensures
            r.lamports == self.lamports,
            r.data@ == self.data@,
            r.owner == self.owner,
            r.executable == self.executable,
            r.rent_epoch == self.rent_epoch,
    {
        let mut data: Vec<u8> = Vec::new();
        let mut i: usize = 0;
        while i < self.data.len()
            invariant
                i <= self.data@.len(),
                data@ == self.data@.take(i as int),
            decreases self.data@.len() - i,
        {
            data.push(self.data[i]);
            i = i + 1;
            assert(data@ =~= self.data@.take(i as int));
        }
        assert(self.data@.take(self.data@.len() as int) == self.data@);
        Account { lamports: self.lamports, data, owner: self.owner, executable: self.executable, rent_epoch: self.rent_epoch }
    }
}

/// A request for exclusive locks on `ids` on behalf of batch `holder`.
pub struct LockRequest {
    pub ids: Vec<u64>,
    pub holder: u64,
}

/// New state for account `id`, written on behalf of lock holder `holder`.
pub struct NewData {
    pub id: u64,
    pub holder: u64,
    pub account: Account,
}

/// One message to the ledger; exactly one field is populated.
pub struct RollupDBMessage {
    pub lock_accounts: Option<LockRequest>,
    pub add_new_data: Option<NewData>,
    pub add_processed_transaction: Option<ProcessedRecord>,
    pub frontend_get_tx: Option<u64>,
    pub add_settle_proof: Option<SettleProof>,
    pub get_account: Option<u64>,
}

impl RollupDBMessage {
    pub open spec fn populated(&self) -> nat {
        (if self.lock_accounts is Some { 1nat } else { 0nat })
            + (if self.add_new_data is Some { 1nat } else { 0nat })
            + (if self.add_processed_transaction is Some { 1nat } else { 0nat })
            + (if self.frontend_get_tx is Some { 1nat } else { 0nat })
            + (if self.add_settle_proof is Some { 1nat } else { 0nat })
            + (if self.get_account is Some { 1nat } else { 0nat })
    }
}

/// The ledger's answer to one message.
pub enum LedgerReply {
    Done,
    Transaction(FrontendMessage),
    Account(Account),
    Failed(LedgerError),
}

/// What the ledger holds, as mathematical values.
pub ghost struct LedgerView {
    pub accounts: Map<u64, Account>,
    /// Account identifier to the identifier of the batch holding its lock.
    pub locks: Map<u64, u64>,
    pub log: Seq<ProcessedRecord>,
    pub proofs: Seq<SettleProof>,
    /// Lock requests waiting for their accounts, oldest first.
    pub waiting: Seq<LockRequest>,
}

pub open spec fn has_tx(log: Seq<ProcessedRecord>, id: u64) -> bool {
    exists|i: int| 0 <= i < log.len() && #[trigger] log[i].transaction.id == id
}

pub open spec fn overlaps(p: SettleProof, start: usize, end: usize) -> bool {
    p.start < end && start < p.end
}

/// A range starting at `start` continues the settled stretch: it is the
/// first range, or it starts where the last settled range ends.
pub open spec fn continues(proofs: Seq<SettleProof>, start: usize) -> bool {
    proofs.len() == 0 || proofs.last().end == start
}

/// Some recorded proof covers part of `start..end`.
pub open spec fn settled_any(proofs: Seq<SettleProof>, start: usize, end: usize) -> bool {
    exists|i: int| 0 <= i < proofs.len() && overlaps(#[trigger] proofs[i], start, end)
}

/// The lock table after `holder` has taken every account of `ids`.
pub open spec fn lock_all(locks: Map<u64, u64>, ids: Seq<u64>, holder: u64) -> Map<u64, u64> {
    Map::new(
        |k: u64| locks.contains_key(k) || ids.contains(k),
        |k: u64| if locks.contains_key(k) { locks[k] } else { holder },
    )
}

/// The lock table after `holder` has let go of the accounts of `ids`.
pub open spec fn unlock_all(locks: Map<u64, u64>, ids: Seq<u64>, holder: u64) -> Map<u64, u64> {
    Map::new(
        |k: u64| locks.contains_key(k) && !(ids.contains(k) && locks[k] == holder),
        |k: u64| locks[k],
    )
}

/// Some account of `ids` is locked, or named by a request in `waiting`.
pub open spec fn blocked(locks: Map<u64, u64>, waiting: Seq<LockRequest>, ids: Seq<u64>) -> bool {
    exists|k: u64| #[trigger] ids.contains(k) && (locks.contains_key(k) || named_by(waiting, k))
}

/// Some request of `waiting` names account `k`.
pub open spec fn named_by(waiting: Seq<LockRequest>, k: u64) -> bool {
    exists|j: int| 0 <= j < waiting.len() && #[trigger] waiting[j].ids@.contains(k)
}

/// One pass over the waiting requests, oldest first: a request whose
/// accounts are free and named by no older request still waiting is granted;
/// the others keep waiting. Gives the lock table, the requests still waiting
/// and the holders granted, in order.
pub open spec fn grant_pass(locks: Map<u64, u64>, queue: Seq<LockRequest>) -> (Map<u64, u64>, Seq<LockRequest>, Seq<u64>)
    decreases queue.len(),
{
    if queue.len() == 0 {
        (locks, Seq::empty(), Seq::empty())
    } else {
        let (l, kept, granted) = grant_pass(locks, queue.drop_last());
        let e = queue.last();
        if blocked(l, kept, e.ids@) {
            (l, kept.push(e), granted)
        } else {
            (lock_all(l, e.ids@, e.holder), kept, granted.push(e.holder))
        }
    }
}

fn is_blocked(locks: &HashMap<u64, u64>, waiting: &Vec<LockRequest>, ids: &Vec<u64>) -> (r: bool)
    ensures
        r == blocked(locks@, waiting@, ids@),
{
    let mut i: usize = 0;
    while i < ids.len()
        invariant
            i <= ids@.len(),
            forall|j: int| 0 <= j < i ==> !locks@.contains_key(#[trigger] ids@[j]) && !named_by(waiting@, ids@[j]),
        decreases ids@.len() - i,
    {
        let k = ids[i];
        if locks.contains_key(&k) {
            assert(ids@.contains(k));
            return true;
        }
        let mut j: usize = 0;
        while j < waiting.len()
            invariant
                i < ids@.len(),
                k == ids@[i as int],
                j <= waiting@.len(),
                forall|m: int| 0 <= m < j ==> !(#[trigger] waiting@[m]).ids@.contains(k),
            decreases waiting@.len() - j,
        {
            if holds_id(&waiting[j].ids, k) {
                assert(ids@.contains(k));
                assert(waiting@[j as int].ids@.contains(k));
                return true;
            }
            j = j + 1;
        }
        i = i + 1;
    }
    assert forall|k: u64| #[trigger] ids@.contains(k) implies !(locks@.contains_key(k) || named_by(waiting@, k)) by {
        let j = choose|j: int| 0 <= j < ids@.len() && ids@[j] == k;
        assert(!locks@.contains_key(ids@[j]));
    }
    false
}

/// The accounts a transaction names.
pub open spec fn named_set(instrs: Seq<Instruction>) -> Set<u64> {
    Set::new(|k: u64| names_in(instrs, k))
}

/// Balances of the accounts of `ids` that the ledger holds.
pub open spec fn snapshot(accounts: Map<u64, Account>, ids: Set<u64>) -> Map<u64, u64> {
    Map::new(|k: u64| ids.contains(k) && accounts.contains_key(k), |k: u64| accounts[k].lamports)
}

/// Two states of one account that differ at most in balance.
pub open spec fn same_but_balance(a: Account, b: Account) -> bool {
    a.data@ == b.data@ && a.owner == b.owner && a.executable == b.executable && a.rent_epoch == b.rent_epoch
}

/// `new` is `old` with the balances of `after` written for the accounts of
/// `ids` that `after` holds; an account new to the ledger is a plain
/// system-owned account.
pub open spec fn commits(old: Map<u64, Account>, new: Map<u64, Account>, ids: Set<u64>, after: Map<u64, u64>) -> bool {
    &&& forall|k: u64| #[trigger] new.contains_key(k) <==> (old.contains_key(k) || (ids.contains(k) && after.contains_key(k)))
    &&& forall|k: u64| ids.contains(k) && after.contains_key(k) ==> #[trigger] new[k].lamports == after[k]
        && (old.contains_key(k) ==> same_but_balance(old[k], new[k]))
        && (!old.contains_key(k) ==> new[k].data@.len() == 0 && new[k].owner == SYSTEM_PROGRAM_ID
            && !new[k].executable && new[k].rent_epoch == 0)
    &&& forall|k: u64| !(ids.contains(k) && after.contains_key(k)) && old.contains_key(k) ==> #[trigger] new[k] == old[k]
}

/// A commit of a transaction with an instruction that targets a program the
/// cache does not hold: its outcome is `ProgramNotFound`, and the ledger keeps
/// the same accounts with the same balances.
pub proof fn lemma_unknown_program_commits_nothing(
    progs: Map<u64, ProgramEntry>,
    old_accounts: Map<u64, Account>,
    new_accounts: Map<u64, Account>,
    instrs: Seq<Instruction>,
    i: int,
)
    requires
        0 <= i < instrs.len(),
        !progs.contains_key(instrs[i].program_id),
        commits(old_accounts, new_accounts, named_set(instrs),
            apply_tx(progs, snapshot(old_accounts, named_set(instrs)), instrs)),
    ensures
        outcome_of(progs, snapshot(old_accounts, named_set(instrs)), instrs) == TxOutcome::Failed(ExecError::ProgramNotFound),
        forall|k: u64| #[trigger] new_accounts.contains_key(k) <==> old_accounts.contains_key(k),
        forall|k: u64| old_accounts.contains_key(k) ==> #[trigger] new_accounts[k].lamports == old_accounts[k].lamports
            && same_but_balance(old_accounts[k], new_accounts[k]),
{
    let before = snapshot(old_accounts, named_set(instrs));
    lemma_unknown_program_changes_nothing(progs, before, instrs, i);
    assert forall|k: u64| old_accounts.contains_key(k) implies #[trigger] new_accounts[k].lamports == old_accounts[k].lamports
        && same_but_balance(old_accounts[k], new_accounts[k]) by {
        if named_set(instrs).contains(k) && before.contains_key(k) {
            assert(new_accounts[k].lamports == before[k]);
        } else {
            assert(new_accounts[k] == old_accounts[k]);
        }
    }
}

proof fn lemma_take_contains(s: Seq<u64>, i: int, k: u64)
    requires
        0 <= i < s.len(),
    ensures
        s.take(i + 1).contains(k) <==> (s.take(i).contains(k) || s[i] == k),
{
    if s.take(i + 1).contains(k) {
        let j = choose|j: int| 0 <= j < i + 1 && #[trigger] s.take(i + 1)[j] == k;
        if j < i {
            assert(s.take(i)[j] == k);
        }
    }
    if s.take(i).contains(k) {
        let j = choose|j: int| 0 <= j < i && #[trigger] s.take(i)[j] == k;
        assert(s.take(i + 1)[j] == k);
    }
    if s[i] == k {
        assert(s.take(i + 1)[i] == k);
    }
}

pub struct RollupDb {
    accounts: HashMap<u64, Account>,
    locks: HashMap<u64, u64>,
    log: Vec<ProcessedRecord>,
    proofs: Vec<SettleProof>,
    waiting: Vec<LockRequest>,
}

impl View for RollupDb {
    type V = LedgerView;

    closed spec fn view(&self) -> LedgerView {
        LedgerView {
            accounts: self.accounts@,
            locks: self.locks@,
            log: self.log@,
            proofs: self.proofs@,
            waiting: self.waiting@,
        }
    }
}

impl LedgerView {
    /// Transaction identifiers are unique in the log, and each proof covers a
    /// non-empty stretch of the log that no other proof covers, starting
    /// where the one before it ends.
    pub open spec fn wf(self) -> bool {
        &&& forall|i: int, j: int|
            0 <= i < j < self.log.len() ==> #[trigger] self.log[i].transaction.id != #[trigger] self.log[j].transaction.id
        &&& forall|i: int|
            0 <= i < self.proofs.len() ==> #[trigger] self.proofs[i].start < self.proofs[i].end
                && self.proofs[i].end <= self.log.len()
        &&& forall|i: int, j: int|
            0 <= i < j < self.proofs.len() ==> !overlaps(#[trigger] self.proofs[i], self.proofs[j].start, #[trigger] self.proofs[j].end)
        &&& forall|i: int| 0 < i < self.proofs.len() ==> #[trigger] self.proofs[i].start == self.proofs[i - 1].end
    }
}

/// Lock table and answer after a lock request.
pub open spec fn lock_step(v: LedgerView, ids: Seq<u64>, holder: u64) -> (LedgerView, Result<(), LedgerError>) {
    if forall|k: u64| ids.contains(k) ==> !v.locks.contains_key(k) {
        (LedgerView { locks: lock_all(v.locks, ids, holder), ..v }, Ok(()))
    } else {
        (v, Err(LedgerError::AccountBusy))
    }
}

/// Ledger and answer after a write of account state.
pub open spec fn data_step(v: LedgerView, id: u64, holder: u64, account: Account) -> (LedgerView, Result<(), LedgerError>) {
    if v.locks.contains_key(id) && v.locks[id] == holder {
        (LedgerView { accounts: v.accounts.insert(id, account), ..v }, Ok(()))
    } else {
        (v, Err(LedgerError::NotLocked))
    }
}

/// Ledger and answer after a record is offered to the processed log.
pub open spec fn record_step(v: LedgerView, record: ProcessedRecord) -> (LedgerView, Result<(), LedgerError>) {
    if has_tx(v.log, record.transaction.id) {
        (v, Err(LedgerError::DuplicateTransaction))
    } else {
        (LedgerView { log: v.log.push(record), ..v }, Ok(()))
    }
}

/// Ledger and answer after a settlement proof is offered.
pub open spec fn settle_step(v: LedgerView, p: SettleProof) -> (LedgerView, Result<(), LedgerError>) {
    if !(p.start < p.end && p.end <= v.log.len()) {
        (v, Err(LedgerError::RangeNotContiguous))
    } else if settled_any(v.proofs, p.start, p.end) {
        (v, Err(LedgerError::RangeAlreadySettled))
    } else if !continues(v.proofs, p.start) {
        (v, Err(LedgerError::RangeNotContiguous))
    } else {
        (LedgerView { proofs: v.proofs.push(p), ..v }, Ok(()))
    }
}

pub open spec fn reply_of(r: Result<(), LedgerError>) -> LedgerReply {
    match r {
        Ok(()) => LedgerReply::Done,
        Err(e) => LedgerReply::Failed(e),
    }
}

/// Offering a record twice under one transaction identifier: the second
/// offer is refused as a duplicate and leaves the ledger as the first left it.
pub proof fn lemma_record_twice_is_duplicate(v: LedgerView, first: ProcessedRecord, second: ProcessedRecord)
    requires
        second.transaction.id == first.transaction.id,
    ensures
        record_step(record_step(v, first).0, second) == (record_step(v, first).0, Err::<(), LedgerError>(LedgerError::DuplicateTransaction)),
{
    let v1 = record_step(v, first).0;
    if !has_tx(v.log, first.transaction.id) {
        assert(v1.log[v.log.len() as int] == first);
    }
    assert(has_tx(v1.log, second.transaction.id));
}

/// Once a settlement proof is accepted, a proof for any range that overlaps
/// it is refused and the ledger, the first proof included, stays as it was.
pub proof fn lemma_settled_range_is_kept(v: LedgerView, p: SettleProof, q: SettleProof)
    requires
        settle_step(v, p).1 is Ok,
        overlaps(p, q.start, q.end),
    ensures
        settle_step(settle_step(v, p).0, q).1 is Err,
        settle_step(settle_step(v, p).0, q).0 == settle_step(v, p).0,
        settle_step(v, p).0.proofs.last() == p,
{
    let v1 = settle_step(v, p).0;
    if q.start < q.end && q.end <= v1.log.len() {
        assert(v1.proofs[v.proofs.len() as int] == p);
        assert(settled_any(v1.proofs, q.start, q.end));
    }
}

/// Lock acquisition is all or nothing: a request that names one held
/// account is refused and takes none of the others, free or not; in waiting
/// mode the same request is queued rather than granted.
pub proof fn lemma_lock_all_or_nothing(v: LedgerView, ids: Seq<u64>, holder: u64, held: u64)
    requires
        ids.contains(held) && v.locks.contains_key(held),
    ensures
        lock_step(v, ids, holder) == (v, Err::<(), LedgerError>(LedgerError::AccountBusy)),
        forall|x: u64| ids.contains(x) && !v.locks.contains_key(x) ==> !#[trigger] lock_step(v, ids, holder).0.locks.contains_key(x),
        blocked(v.locks, v.waiting, ids),
{
}

/// A granted lock request leaves every account it names held by the requester.
pub proof fn lemma_granted_lock_holds_all(v: LedgerView, ids: Seq<u64>, holder: u64)
    requires
        lock_step(v, ids, holder).1 is Ok,
    ensures
        forall|x: u64| ids.contains(x) ==> #[trigger] lock_step(v, ids, holder).0.locks.contains_key(x)
            && lock_step(v, ids, holder).0.locks[x] == holder,
{
}

impl RollupDb {
    pub fn new() -> (r: RollupDb)
        ensures
            r@.wf(),
            r@.accounts == Map::<u64, Account>::empty(),
            r@.locks == Map::<u64, u64>::empty(),
            r@.log == Seq::<ProcessedRecord>::empty(),
            r@.proofs == Seq::<SettleProof>::empty(),
            r@.waiting == Seq::<LockRequest>::empty(),
    {
        RollupDb { accounts: HashMap::new(), locks: HashMap::new(), log: Vec::new(), proofs: Vec::new(), waiting: Vec::new() }
    }

    /// Takes exclusive locks on all of `ids` for `holder`, or on none of them
    /// when any is already held.
    pub fn lock_accounts(&mut self, ids: &Vec<u64>, holder: u64) -> (r: Result<(), LedgerError>)
        ensures
            (forall|k: u64| ids@.contains(k) ==> !old(self)@.locks.contains_key(k)) <==> r is Ok,
            r is Ok ==> final(self)@ == (LedgerView { locks: lock_all(old(self)@.locks, ids@, holder), ..old(self)@ }),
            r is Err ==> r == Err::<(), LedgerError>(LedgerError::AccountBusy) && final(self)@ == old(self)@,
            (final(self)@, r) == lock_step(old(self)@, ids@, holder),
    {
        let mut i: usize = 0;
        while i < ids.len()
            invariant
                i <= ids@.len(),
                self@ == old(self)@,
                forall|j: int| 0 <= j < i ==> !self.locks@.contains_key(#[trigger] ids@[j]),
            decreases ids@.len() - i,
        {
            if self.locks.contains_key(&ids[i]) {
                assert(ids@.contains(ids@[i as int]));
                return Err(LedgerError::AccountBusy);
            }
            i = i + 1;
        }
        let ghost l0 = self.locks@;
        let mut i: usize = 0;
        while i < ids.len()
            invariant
                i <= ids@.len(),
                l0 == old(self)@.locks,
                self@ == (LedgerView { locks: self.locks@, ..old(self)@ }),
                forall|j: int| 0 <= j < ids@.len() ==> !l0.contains_key(#[trigger] ids@[j]),
                self.locks@ == lock_all(l0, ids@.take(i as int), holder),
            decreases ids@.len() - i,
        {
            self.locks.insert(ids[i], holder);
            i = i + 1;
            assert(self.locks@ =~= lock_all(l0, ids@.take(i as int), holder)) by {
                assert forall|k: u64| ids@.take(i as int).contains(k) <==> (ids@.take(i - 1).contains(k) || k == ids@[i - 1]) by {
                    if ids@.take(i as int).contains(k) {
                        let j = choose|j: int| 0 <= j < i && #[trigger] ids@.take(i as int)[j] == k;
                        if j < i - 1 {
                            assert(ids@.take(i - 1)[j] == k);
                        }
                    }
                    if ids@.take(i - 1).contains(k) {
                        let j = choose|j: int| 0 <= j < i - 1 && #[trigger] ids@.take(i - 1)[j] == k;
                        assert(ids@.take(i as int)[j] == k);
                    }
                    if k == ids@[i - 1] {
                        assert(ids@.take(i as int)[i - 1] == k);
                    }
                }
            }
        }
        assert(ids@.take(ids@.len() as int) == ids@);
        assert forall|k: u64| ids@.contains(k) implies !old(self)@.locks.contains_key(k) by {
            let j = choose|j: int| 0 <= j < ids@.len() && #[trigger] ids@[j] == k;
        }
        Ok(())
    }

    /// Releases the locks that `holder` has on accounts of `ids`; locks of
    /// other holders stay.
    pub fn unlock_accounts(&mut self, ids: &Vec<u64>, holder: u64)
        ensures
            final(self)@ == (LedgerView { locks: unlock_all(old(self)@.locks, ids@, holder), ..old(self)@ }),
    {
        let mut i: usize = 0;
        while i < ids.len()
            invariant
                i <= ids@.len(),
                self@ == (LedgerView { locks: self.locks@, ..old(self)@ }),
                self.locks@ == unlock_all(old(self)@.locks, ids@.take(i as int), holder),
            decreases ids@.len() - i,
        {
            let k = ids[i];
            let held = match self.locks.get(&k) {
                Some(h) => *h == holder,
                None => false,
            };
            if held {
                self.locks.remove(&k);
            }
            i = i + 1;
            assert(self.locks@ =~= unlock_all(old(self)@.locks, ids@.take(i as int), holder)) by {
                assert forall|x: u64| ids@.take(i as int).contains(x) <==> (ids@.take(i - 1).contains(x) || x == ids@[i - 1]) by {
                    if ids@.take(i as int).contains(x) {
                        let j = choose|j: int| 0 <= j < i && #[trigger] ids@.take(i as int)[j] == x;
                        if j < i - 1 {
                            assert(ids@.take(i - 1)[j] == x);
                        }
                    }
                    if ids@.take(i - 1).contains(x) {
                        let j = choose|j: int| 0 <= j < i - 1 && #[trigger] ids@.take(i - 1)[j] == x;
                        assert(ids@.take(i as int)[j] == x);
                    }
                    if x == ids@[i - 1] {
                        assert(ids@.take(i as int)[i - 1] == x);
                    }
                }
            }
        }
        assert(ids@.take(ids@.len() as int) == ids@);
    }

    /// Writes the state of an account; `holder` must hold its lock.
    pub fn add_new_data(&mut self, id: u64, holder: u64, account: Account) -> (r: Result<(), LedgerError>)
        ensures
            (old(self)@.locks.contains_key(id) && old(self)@.locks[id] == holder) <==> r is Ok,
            r is Ok ==> final(self)@ == (LedgerView { accounts: old(self)@.accounts.insert(id, account), ..old(self)@ }),
            r is Err ==> r == Err::<(), LedgerError>(LedgerError::NotLocked) && final(self)@ == old(self)@,
            (final(self)@, r) == data_step(old(self)@, id, holder, account),
    {
        let held = match self.locks.get(&id) {
            Some(h) => *h == holder,
            None => false,
        };
        if !held {
            return Err(LedgerError::NotLocked);
        }
        self.accounts.insert(id, account);
        Ok(())
    }

    /// Committed state of an account.
    pub fn get_account(&self, id: u64) -> (r: Result<&Account, LedgerError>)
        ensures
            self@.accounts.contains_key(id) ==> r == Ok::<&Account, LedgerError>(&self@.accounts[id]),
            !self@.accounts.contains_key(id) ==> r == Err::<&Account, LedgerError>(LedgerError::NotFound),
    {
        match self.accounts.get(&id) {
            Some(a) => Ok(a),
            None => Err(LedgerError::NotFound),
        }
    }

    fn find_tx(&self, id: u64) -> (r: Option<usize>)
        ensures
            match r {
                Some(i) => i < self@.log.len() && self@.log[i as int].transaction.id == id,
                None => !has_tx(self@.log, id),
            },
    {
        let mut i: usize = 0;
        while i < self.log.len()
            invariant
                i <= self.log@.len(),
                forall|j: int| 0 <= j < i ==> #[trigger] self.log@[j].transaction.id != id,
            decreases self.log@.len() - i,
        {
            if self.log[i].transaction.id == id {
                return Some(i);
            }
            i = i + 1;
        }
        None
    }

    /// Appends a record to the processed log, unless a record of the same
    /// transaction is there already.
    pub fn add_processed_transaction(&mut self, record: ProcessedRecord) -> (r: Result<(), LedgerError>)
        requires
            old(self)@.wf(),
        ensures
            final(self)@.wf(),
            !has_tx(old(self)@.log, record.transaction.id) <==> r is Ok,
            r is Ok ==> final(self)@ == (LedgerView { log: old(self)@.log.push(record), ..old(self)@ }),
            r is Err ==> r == Err::<(), LedgerError>(LedgerError::DuplicateTransaction) && final(self)@ == old(self)@,
            (final(self)@, r) == record_step(old(self)@, record),
    {
        match self.find_tx(record.transaction.id) {
            Some(_) => Err(LedgerError::DuplicateTransaction),
            None => {
                let ghost l0 = self.log@;
                self.log.push(record);
                proof {
                    assert forall|i: int, j: int| 0 <= i < j < self.log@.len() implies
                        #[trigger] self.log@[i].transaction.id != #[trigger] self.log@[j].transaction.id by {
                        if j == l0.len() {
                            assert(l0[i].transaction.id == self.log@[i].transaction.id);
                        }
                    }
                }
                Ok(())
            },
        }
    }

    /// The processed record of the transaction with identifier `hash`.
    pub fn get_transaction_by_hash(&self, hash: u64) -> (r: Result<&ProcessedRecord, LedgerError>)
        ensures
            has_tx(self@.log, hash) <==> r is Ok,
            r matches Ok(rec) ==> rec.transaction.id == hash && self@.log.contains(*rec),
            r is Err ==> r == Err::<&ProcessedRecord, LedgerError>(LedgerError::NotFound),
    {
        match self.find_tx(hash) {
            Some(i) => {
                assert(self@.log[i as int] == self.log@[i as int]);
                Ok(&self.log[i])
            },
            None => Err(LedgerError::NotFound),
        }
    }

    /// Lock request in waiting mode: granted at once when its accounts are
    /// free and no older waiting request names any of them (`true`), else
    /// queued behind the requests already waiting (`false`).
    pub fn request_lock(&mut self, req: LockRequest) -> (r: bool)
        ensures
            !blocked(old(self)@.locks, old(self)@.waiting, req.ids@) <==> r,
            r ==> final(self)@ == (LedgerView { locks: lock_all(old(self)@.locks, req.ids@, req.holder), ..old(self)@ }),
            !r ==> final(self)@ == (LedgerView { waiting: old(self)@.waiting.push(req), ..old(self)@ }),
    {
        if is_blocked(&self.locks, &self.waiting, &req.ids) {
            self.waiting.push(req);
            return false;
        }
        let granted = self.lock_accounts(&req.ids, req.holder);
        assert(granted is Ok);
        true
    }

    /// Ends the wait of `holder` when it has run out: its oldest waiting
    /// request leaves the queue and is answered `AccountBusy`. A holder with
    /// no waiting request gets `Ok` and nothing changes. Requests that the
    /// removed one held back are granted by the next `release_and_grant`.
    pub fn abandon_wait(&mut self, holder: u64) -> (r: Result<(), LedgerError>)
        ensures
            (forall|i: int| 0 <= i < old(self)@.waiting.len() ==> #[trigger] old(self)@.waiting[i].holder != holder) <==> r is Ok,
            r is Ok ==> final(self)@ == old(self)@,
            r is Err ==> r == Err::<(), LedgerError>(LedgerError::AccountBusy) && exists|i: int|
                0 <= i < old(self)@.waiting.len() && #[trigger] old(self)@.waiting[i].holder == holder
                && (forall|j: int| 0 <= j < i ==> old(self)@.waiting[j].holder != holder)
                && final(self)@ == (LedgerView { waiting: old(self)@.waiting.remove(i), ..old(self)@ }),
    {
        let mut i: usize = 0;
        while i < self.waiting.len()
            invariant
                i <= self.waiting@.len(),
                self@ == old(self)@,
                forall|j: int| 0 <= j < i ==> #[trigger] self.waiting@[j].holder != holder,
            decreases self.waiting@.len() - i,
        {
            if self.waiting[i].holder == holder {
                let _ = self.waiting.remove(i);
                assert(old(self)@.waiting[i as int].holder == holder);
                return Err(LedgerError::AccountBusy);
            }
            i = i + 1;
        }
        Ok(())
    }

    /// One lock-execute-commit cycle: locks the accounts `tx` names for
    /// `holder`, executes it on their committed balances, writes the balances
    /// back, records the transaction with its outcome and releases the locks.
    /// A transaction already in the log, or one naming a locked account, is
    /// refused with nothing changed.
    pub fn process_transaction(&mut self, cache: &ProgramCache, tx: Transaction, holder: u64) -> (r: Result<TxOutcome, LedgerError>)
        requires
            old(self)@.wf(),
        ensures
            final(self)@.wf(),
            has_tx(old(self)@.log, tx.id) ==> r == Err::<TxOutcome, LedgerError>(LedgerError::DuplicateTransaction)
                && final(self)@ == old(self)@,
            !has_tx(old(self)@.log, tx.id) && (exists|k: u64| named_set(tx.instructions@).contains(k) && #[trigger] old(self)@.locks.contains_key(k))
                ==> r == Err::<TxOutcome, LedgerError>(LedgerError::AccountBusy) && final(self)@ == old(self)@,
            r is Ok ==> ({
                let ids = named_set(tx.instructions@);
                let before = snapshot(old(self)@.accounts, ids);
                let outcome = outcome_of(cache@, before, tx.instructions@);
                &&& r == Ok::<TxOutcome, LedgerError>(outcome)
                &&& commits(old(self)@.accounts, final(self)@.accounts, ids, apply_tx(cache@, before, tx.instructions@))
                &&& final(self)@.log == old(self)@.log.push(ProcessedRecord { transaction: tx, outcome })
                &&& final(self)@.locks == old(self)@.locks
                &&& final(self)@.proofs == old(self)@.proofs
                &&& final(self)@.waiting == old(self)@.waiting
            }),
            !has_tx(old(self)@.log, tx.id) && !(exists|k: u64| named_set(tx.instructions@).contains(k) && #[trigger] old(self)@.locks.contains_key(k))
                ==> r is Ok,
    {
        if self.find_tx(tx.id).is_some() {
            return Err(LedgerError::DuplicateTransaction);
        }
        let ids = tx_accounts(&tx);
        let ghost set = named_set(tx.instructions@);
        assert(Set::new(|k: u64| ids@.contains(k)) =~= set);
        let ghost v0 = self@;
        match self.lock_accounts(&ids, holder) {
            Ok(()) => {},
            Err(e) => {
                proof {
                    let k = choose|k: u64| ids@.contains(k) && old(self)@.locks.contains_key(k);
                    assert(set.contains(k));
                }
                return Err(e);
            },
        }
        let ghost acc0 = self.accounts@;
        let mut snap: HashMap<u64, u64> = HashMap::new();
        let mut i: usize = 0;
        while i < ids.len()
            invariant
                i <= ids@.len(),
                self@ == (LedgerView { locks: lock_all(v0.locks, ids@, holder), ..v0 }),
                acc0 == v0.accounts,
                snap@ == snapshot(acc0, Set::new(|k: u64| ids@.take(i as int).contains(k))),
            decreases ids@.len() - i,
        {
            let k = ids[i];
            match self.accounts.get(&k) {
                Some(a) => {
                    snap.insert(k, a.lamports);
                },
                None => {},
            }
            proof {
                assert forall|x: u64| ids@.take(i + 1).contains(x) <==> (ids@.take(i as int).contains(x) || ids@[i as int] == x) by {
                    lemma_take_contains(ids@, i as int, x);
                }
            }
            i = i + 1;
            assert(snap@ =~= snapshot(acc0, Set::new(|x: u64| ids@.take(i as int).contains(x))));
        }
        assert(ids@.take(ids@.len() as int) == ids@);
        assert(Set::new(|x: u64| ids@.take(ids@.len() as int).contains(x)) =~= set);
        let ghost before = snap@;
        let outcome = cache.execute_transaction(&mut snap, &tx);
        let ghost after = snap@;
        let mut i: usize = 0;
        while i < ids.len()
            invariant
                i <= ids@.len(),
                snap@ == after,
                ids@.no_duplicates(),
                commits(acc0, self.accounts@, Set::new(|k: u64| ids@.take(i as int).contains(k)), after),
                self@ == (LedgerView { accounts: self.accounts@, locks: lock_all(v0.locks, ids@, holder), ..v0 }),
                acc0 == v0.accounts,
            decreases ids@.len() - i,
        {
            let k = ids[i];
            let ghost prev = self.accounts@;
            proof {
                if ids@.take(i as int).contains(k) {
                    let j = choose|j: int| 0 <= j < i && #[trigger] ids@.take(i as int)[j] == k;
                    assert(ids@[j] == ids@[i as int]);
                    assert(false);
                }
            }
            match snap.get(&k) {
                Some(bal) => {
                    let acct = match self.accounts.get(&k) {
                        Some(a) => {
                            let mut d = a.duplicate();
                            d.lamports = *bal;
                            d
                        },
                        None => Account { lamports: *bal, data: Vec::new(), owner: SYSTEM_PROGRAM_ID, executable: false, rent_epoch: 0 },
                    };
                    self.accounts.insert(k, acct);
                },
                None => {},
            }
            proof {
                let s0 = Set::new(|x: u64| ids@.take(i as int).contains(x));
                let s1 = Set::new(|x: u64| ids@.take(i + 1).contains(x));
                assert forall|x: u64| s1.contains(x) <==> (s0.contains(x) || x == k) by {
                    lemma_take_contains(ids@, i as int, x);
                }
                let cur = self.accounts@;
                assert(!s0.contains(k));
                if after.contains_key(k) {
                    assert(cur == prev.insert(k, cur[k]));
                    assert(prev.contains_key(k) <==> acc0.contains_key(k));
                    if acc0.contains_key(k) {
                        assert(prev[k] == acc0[k]);
                    }
                } else {
                    assert(cur == prev);
                }
                assert forall|x: u64| #[trigger] cur.contains_key(x) <==> (acc0.contains_key(x) || (s1.contains(x) && after.contains_key(x))) by {
                    assert(prev.contains_key(x) <==> (acc0.contains_key(x) || (s0.contains(x) && after.contains_key(x))));
                }
                assert forall|x: u64| s1.contains(x) && after.contains_key(x) implies #[trigger] cur[x].lamports == after[x]
                    && (acc0.contains_key(x) ==> same_but_balance(acc0[x], cur[x]))
                    && (!acc0.contains_key(x) ==> cur[x].data@.len() == 0 && cur[x].owner == SYSTEM_PROGRAM_ID
                        && !cur[x].executable && cur[x].rent_epoch == 0) by {
                    if x != k {
                        assert(s0.contains(x));
                        assert(prev[x].lamports == after[x]);
                    }
                }
                assert forall|x: u64| !(s1.contains(x) && after.contains_key(x)) && acc0.contains_key(x) implies #[trigger] cur[x] == acc0[x] by {
                    assert(!(s0.contains(x) && after.contains_key(x)));
                    assert(prev[x] == acc0[x]);
                }
            }
            i = i + 1;
        }
        assert(ids@.take(ids@.len() as int) == ids@);
        assert(Set::new(|x: u64| ids@.take(ids@.len() as int).contains(x)) =~= set);
        let added = self.add_processed_transaction(ProcessedRecord { transaction: tx, outcome });
        assert(added is Ok);
        self.unlock_accounts(&ids, holder);
        assert(self.locks@ =~= v0.locks);
        Ok(outcome)
    }

    /// Releases the locks that `holder` has on accounts of `ids`, then grants
    /// waiting requests in arrival order; returns the holders granted.
    pub fn release_and_grant(&mut self, ids: &Vec<u64>, holder: u64) -> (r: Vec<u64>)
        ensures
            ({
                let (l, kept, granted) = grant_pass(unlock_all(old(self)@.locks, ids@, holder), old(self)@.waiting);
                final(self)@ == (LedgerView { locks: l, waiting: kept, ..old(self)@ }) && r@ == granted
            }),
    {
        self.unlock_accounts(ids, holder);
        let ghost l1 = self.locks@;
        let ghost mid = self@;
        let mut queue: Vec<LockRequest> = Vec::new();
        std::mem::swap(&mut queue, &mut self.waiting);
        let ghost orig = queue@;
        let mut granted: Vec<u64> = Vec::new();
        let n = queue.len();
        let mut i: usize = 0;
        while i < n
            invariant
                n == orig.len(),
                i <= n,
                queue@ == orig.skip(i as int),
                (self.locks@, self.waiting@, granted@) == grant_pass(l1, orig.take(i as int)),
                self@ == (LedgerView { locks: self.locks@, waiting: self.waiting@, ..mid }),
            decreases n - i,
        {
            let e = queue.remove(0);
            proof {
                assert(orig.take(i + 1).drop_last() == orig.take(i as int));
                assert(e == orig[i as int]);
                assert(queue@ =~= orig.skip(i + 1));
            }
            if is_blocked(&self.locks, &self.waiting, &e.ids) {
                self.waiting.push(e);
            } else {
                let h = e.holder;
                assert(forall|k: u64| #[trigger] e.ids@.contains(k) ==> !self.locks@.contains_key(k));
                let ok = self.lock_accounts(&e.ids, h);
                assert(ok is Ok);
                granted.push(h);
            }
            i = i + 1;
        }
        assert(orig.take(n as int) == orig);
        granted
    }

    fn reply(r: Result<(), LedgerError>) -> (out: LedgerReply)
        ensures
            out == reply_of(r),
    {
        match r {
            Ok(()) => LedgerReply::Done,
            Err(e) => LedgerReply::Failed(e),
        }
    }

    /// Serves one message: the operation of its populated field.
    pub fn handle_message(&mut self, msg: RollupDBMessage) -> (r: LedgerReply)
        requires
            old(self)@.wf(),
            msg.populated() == 1,
        ensures
            final(self)@.wf(),
            msg.lock_accounts matches Some(q) ==> final(self)@ == lock_step(old(self)@, q.ids@, q.holder).0
                && r == reply_of(lock_step(old(self)@, q.ids@, q.holder).1),
            msg.add_new_data matches Some(d) ==> final(self)@ == data_step(old(self)@, d.id, d.holder, d.account).0
                && r == reply_of(data_step(old(self)@, d.id, d.holder, d.account).1),
            msg.add_processed_transaction matches Some(rec) ==> final(self)@ == record_step(old(self)@, rec).0
                && r == reply_of(record_step(old(self)@, rec).1),
            msg.add_settle_proof matches Some(p) ==> final(self)@ == settle_step(old(self)@, p).0
                && r == reply_of(settle_step(old(self)@, p).1),
            msg.frontend_get_tx matches Some(h) ==> final(self)@ == old(self)@
                && (!has_tx(old(self)@.log, h) ==> r == LedgerReply::Failed(LedgerError::NotFound))
                && (has_tx(old(self)@.log, h) ==> (r matches LedgerReply::Transaction(m) && m.get_tx == Some(h)
                && (m.transaction matches Some(t) && m.outcome matches Some(o) && exists|i: int| 0 <= i < old(self)@.log.len()
                    && #[trigger] old(self)@.log[i].transaction.id == h && o == old(self)@.log[i].outcome
                    && t.instructions@ == old(self)@.log[i].transaction.instructions@ && t.id == h))),
            msg.get_account matches Some(id) ==> final(self)@ == old(self)@
                && (old(self)@.accounts.contains_key(id) ==> (r matches LedgerReply::Account(a)
                    && a.lamports == old(self)@.accounts[id].lamports
                    && a.data@ == old(self)@.accounts[id].data@
                    && a.owner == old(self)@.accounts[id].owner
                    && a.executable == old(self)@.accounts[id].executable
                    && a.rent_epoch == old(self)@.accounts[id].rent_epoch))
                && (!old(self)@.accounts.contains_key(id) ==> r == LedgerReply::Failed(LedgerError::NotFound)),
    {
        if let Some(q) = msg.lock_accounts {
            let r = self.lock_accounts(&q.ids, q.holder);
            Self::reply(r)
        } else if let Some(d) = msg.add_new_data {
            let r = self.add_new_data(d.id, d.holder, d.account);
            Self::reply(r)
        } else if let Some(rec) = msg.add_processed_transaction {
            let r = self.add_processed_transaction(rec);
            Self::reply(r)
        } else if let Some(p) = msg.add_settle_proof {
            let r = self.add_settle_proof(p.proof, p.start, p.end);
            Self::reply(r)
        } else if let Some(h) = msg.frontend_get_tx {
            let m = self.frontend_get_tx(h);
            if m.transaction.is_some() {
                LedgerReply::Transaction(m)
            } else {
                LedgerReply::Failed(LedgerError::NotFound)
            }
        } else {
            let id = msg.get_account.unwrap();
            match self.get_account(id) {
                Ok(a) => LedgerReply::Account(a.duplicate()),
                Err(e) => LedgerReply::Failed(e),
            }
        }
    }

    /// Answer to a client query: the transaction processed under `hash` and
    /// its outcome, when there is one.
    pub fn frontend_get_tx(&self, hash: u64) -> (r: FrontendMessage)
        ensures
            r.get_tx == Some(hash),
            has_tx(self@.log, hash) <==> r.transaction is Some,
            r.transaction is Some <==> r.outcome is Some,
            r.transaction matches Some(t) ==> exists|i: int| 0 <= i < self@.log.len()
                && #[trigger] self@.log[i].transaction.id == hash && r.outcome == Some(self@.log[i].outcome)
                && t.instructions@ == self@.log[i].transaction.instructions@ && t.id == hash,
    {
        match self.find_tx(hash) {
            Some(i) => {
                let t = self.log[i].transaction.duplicate();
                FrontendMessage { get_tx: Some(hash), transaction: Some(t), outcome: Some(self.log[i].outcome) }
            },
            None => FrontendMessage { get_tx: Some(hash), transaction: None, outcome: None },
        }
    }

    /// Records a settlement proof for log entries `start..end`.
    pub fn add_settle_proof(&mut self, proof: u64, start: usize, end: usize) -> (r: Result<(), LedgerError>)
        requires
            old(self)@.wf(),
        ensures
            final(self)@.wf(),
            (start < end && end <= old(self)@.log.len() && !settled_any(old(self)@.proofs, start, end)
                && continues(old(self)@.proofs, start)) <==> r is Ok,
            r is Ok ==> final(self)@ == (LedgerView {
                proofs: old(self)@.proofs.push(SettleProof { proof, start, end }),
                ..old(self)@
            }),
            !(start < end && end <= old(self)@.log.len()) ==> r == Err::<(), LedgerError>(LedgerError::RangeNotContiguous),
            (start < end && end <= old(self)@.log.len() && settled_any(old(self)@.proofs, start, end))
                ==> r == Err::<(), LedgerError>(LedgerError::RangeAlreadySettled),
            (start < end && end <= old(self)@.log.len() && !settled_any(old(self)@.proofs, start, end)
                && !continues(old(self)@.proofs, start)) ==> r == Err::<(), LedgerError>(LedgerError::RangeNotContiguous),
            r is Err ==> final(self)@ == old(self)@,
            (final(self)@, r) == settle_step(old(self)@, SettleProof { proof, start, end }),
    {
        if !(start < end && end <= self.log.len()) {
            return Err(LedgerError::RangeNotContiguous);
        }
        let mut i: usize = 0;
        while i < self.proofs.len()
            invariant
                i <= self.proofs@.len(),
                self@ == old(self)@,
                self@.wf(),
                start < end && end <= self.log@.len(),
                forall|j: int| 0 <= j < i ==> !overlaps(#[trigger] self.proofs@[j], start, end),
            decreases self.proofs@.len() - i,
        {
            let p = self.proofs[i];
            if p.start < end && start < p.end {
                assert(overlaps(self.proofs@[i as int], start, end));
                return Err(LedgerError::RangeAlreadySettled);
            }
            i = i + 1;
        }
        let n = self.proofs.len();
        if n > 0 && self.proofs[n - 1].end != start {
            return Err(LedgerError::RangeNotContiguous);
        }
        let ghost prior = self.proofs@;
        self.proofs.push(SettleProof { proof, start, end });
        proof {
            assert forall|i: int, j: int| 0 <= i < j < self.proofs@.len() implies
                !overlaps(#[trigger] self.proofs@[i], self.proofs@[j].start, #[trigger] self.proofs@[j].end) by {
                if j == prior.len() {
                    assert(self.proofs@[i] == prior[i]);
                    assert(!overlaps(prior[i], start, end));
                } else {
                    assert(self.proofs@[i] == prior[i]);
                    assert(self.proofs@[j] == prior[j]);
                }
            }
            assert forall|i: int| 0 <= i < self.proofs@.len() implies #[trigger] self.proofs@[i].start < self.proofs@[i].end
                && self.proofs@[i].end <= self.log@.len() by {
                if i < prior.len() {
                    assert(self.proofs@[i] == prior[i]);
                }
            }
            assert forall|i: int| 0 < i < self.proofs@.len() implies #[trigger] self.proofs@[i].start == self.proofs@[i - 1].end by {
                assert(self.proofs@[i - 1] == prior[i - 1]);
                if i < prior.len() {
                    assert(self.proofs@[i] == prior[i]);
                }
            }
        }
        Ok(())
    }
}

} // verus!
