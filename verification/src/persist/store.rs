//! The contract every ledger backend satisfies.
//!
//! The same semantics run in memory and against a database without the
//! simulation knowing which it is talking to. The trait is sync: a durable
//! backend does not block on its database, it enqueues and returns a
//! *pending* receipt.
//!
//! What a backend guarantees is stated over the [`Book`] it keeps, so the
//! laws of the ledger hold of every backend:
//!
//! - Every asset sums to zero across all accounts.
//! - A repeated [`IdemKey`] moves value exactly once.
//! - A refused transfer leaves no partial state.
//! - Reserved funds cannot be spent twice.

use crate::persist::ledger;
use crate::persist::ledger::{
    Account, AccountView, Amount, Book, Discrepancy, Entry, EntryView, IdemKey, Ledger, LedgerError,
    LedgerErrorView, Receipt, ReceiptView, ReservationId, TransferRequest,
};
use vstd::prelude::*;

verus! {

/// How durable a receipt is.
///
/// A pending transfer has *happened* as far as the simulation is concerned,
/// but telling the player "sold!" before it commits is how you end up with a
/// player who saw a confirmation for a transaction that was later lost.
#[derive(Copy, Clone, Debug, PartialEq, Eq, Structural)]
pub enum Durability {
    /// No durable store behind this ledger. Lost on process exit.
    Memory,
    /// Accepted and applied to balances, not yet committed.
    Pending,
    /// Committed to durable storage.
    Committed,
}

/// A receipt plus how durable it is.
#[derive(Debug, PartialEq, Eq)]
pub struct StoredReceipt {
    pub receipt: Receipt,
    pub durability: Durability,
}

impl Clone for StoredReceipt {
    fn clone(&self) -> (r: Self)
        ensures
            r == *self,
    {
        StoredReceipt { receipt: self.receipt.clone(), durability: self.durability }
    }
}

/// The read and write surface a ledger backend provides.
pub trait LedgerStore {
    /// What the backend relies on.
    spec fn store_wf(&self) -> bool;

    /// The book that the backend keeps.
    spec fn kept(&self) -> Book;

    /// Why the backend takes no new transfers at the moment, whatever is asked.
    spec fn refusal(&self) -> Option<LedgerErrorView>;

    /// How durable the transfer is whose debit is the `seq`-th entry.
    spec fn durability(&self, seq: nat) -> Durability;

    /// The highest tick whose value movements are durable.
    spec fn acked(&self) -> nat;

    /// Room for one more transfer.
    spec fn has_space(&self) -> bool;

    /// A well-formed backend keeps a whole book, so that the laws of the
    /// ledger hold of it.
    proof fn lemma_kept_book_is_whole(&self)
        requires
            self.store_wf(),
        ensures
            self.kept().wf(),
    ;

    /// Move value, or explain why not.
    ///
    /// Atomic: either both entries exist or neither does. A repeated
    /// `idem_key` returns the original receipt without moving anything, even
    /// if the account could no longer afford the transfer, and even while the
    /// backend takes no new transfers.
    fn transfer(&mut self, req: TransferRequest) -> (res: Result<StoredReceipt, LedgerError>)
        requires
            old(self).store_wf(),
            old(self).has_space(),
        ensures
            final(self).store_wf(),
            if old(self).kept().seen.contains_key(req@.idem_key) {
                let filed = old(self).kept().seen[req@.idem_key];
                &&& final(self).kept() == old(self).kept()
                &&& res is Ok
                &&& res->Ok_0.receipt@ == (ReceiptView { deduplicated: true, ..filed })
                &&& res->Ok_0.durability == final(self).durability(filed.debit_seq)
            } else {
                match old(self).refusal() {
                    Some(e) => {
                        &&& res is Err && res->Err_0@ == e
                        &&& final(self).kept() == old(self).kept()
                    },
                    None => {
                        &&& final(self).kept() == ledger::transfer_after(old(self).kept(), req@)
                        &&& match ledger::transfer_outcome(old(self).kept(), req@) {
                            Ok(receipt) => {
                                &&& res is Ok && res->Ok_0.receipt@ == receipt
                                &&& res->Ok_0.durability == final(self).durability(
                                    receipt.debit_seq,
                                )
                            },
                            Err(e) => res is Err && res->Err_0@ == e,
                        }
                    },
                }
            },
    ;

    /// Balance for an account and asset, derived from the log.
    fn balance(&self, account: &Account, asset: &str) -> (r: Amount)
        requires
            self.store_wf(),
        ensures
            r == self.kept().balance(account@, asset@),
    ;

    /// Balance minus funds held by in-flight reservations. This is what a
    /// spend checks against.
    fn available(&self, account: &Account, asset: &str) -> (r: Amount)
        requires
            self.store_wf(),
        ensures
            r == self.kept().available(account@, asset@),
    ;

    /// Hold funds so an in-flight commit cannot be double-spent.
    fn reserve(&mut self, account: &Account, asset: &str, amount: Amount) -> (res: Result<
        ReservationId,
        LedgerError,
    >)
        requires
            old(self).store_wf(),
            old(self).kept().next_hold < u64::MAX,
        ensures
            final(self).store_wf(),
            final(self).kept() == ledger::reserve_after(
                old(self).kept(),
                account@,
                asset@,
                amount as int,
            ),
            match ledger::reserve_outcome(old(self).kept(), account@, asset@, amount as int) {
                Ok(id) => res is Ok && res->Ok_0.0 == id,
                Err(e) => res is Err && res->Err_0@ == e,
            },
    ;

    /// Release a hold without spending it.
    fn release(&mut self, id: ReservationId) -> (res: Result<(), LedgerError>)
        requires
            old(self).store_wf(),
        ensures
            final(self).store_wf(),
            final(self).kept() == (Book {
                holds: ledger::without(old(self).kept().holds, id.0 as nat),
                ..old(self).kept()
            }),
            match res {
                Ok(()) => ledger::is_held(old(self).kept().holds, id.0 as nat),
                Err(e) => !ledger::is_held(old(self).kept().holds, id.0 as nat) && e@
                    == LedgerErrorView::UnknownReservation,
            },
    ;

    /// Entries touching an account, oldest first — a support investigation's
    /// raw material.
    fn history(&self, account: &Account) -> (r: Vec<Entry>)
        requires
            self.store_wf(),
        ensures
            ledger::entry_views(r@) == self.kept().entries.filter(ledger::touches(account@)),
    ;

    /// **The dupe detector.** The assets that do not sum to zero across all
    /// accounts, whatever state the backend is in. Empty means the books
    /// balance, which those of a backend in order do.
    fn audit_zero_sum(&self) -> (out: Vec<Discrepancy>)
        ensures
            ledger::lists_imbalances(self.kept().entries, out@),
            self.store_wf() ==> out@.len() == 0,
    ;

    /// Total ever created for an asset.
    fn total_minted(&self, asset: &str) -> (r: i128)
        requires
            self.store_wf(),
        ensures
            r == -self.kept().balance(AccountView::Mint, asset@),
    ;

    /// The highest tick whose value movements are durably committed. A
    /// checkpoint may never claim a tick above this.
    fn acked_tick(&self) -> (t: u64)
        requires
            self.store_wf(),
        ensures
            t == self.acked(),
    ;

    /// Look up a previously-issued receipt by its key.
    fn receipt_for(&self, key: &IdemKey) -> (r: Option<StoredReceipt>)
        requires
            self.store_wf(),
        ensures
            match r {
                Some(stored) => {
                    &&& self.kept().seen.contains_key(key@)
                    &&& stored.receipt@ == self.kept().seen[key@]
                    &&& stored.durability == self.durability(stored.receipt@.debit_seq)
                },
                None => !self.kept().seen.contains_key(key@),
            },
    ;
}

/// The highest tick among the entries.
pub open spec fn highest_tick(es: Seq<EntryView>) -> nat
    decreases es.len(),
{
    if es.len() == 0 {
        0
    } else if es.last().tick > highest_tick(es.drop_last()) {
        es.last().tick
    } else {
        highest_tick(es.drop_last())
    }
}

/// Clone the entries that a borrowed history lists.
pub(crate) fn cloned_history(l: &Ledger, account: &Account) -> (out: Vec<Entry>)
    ensures
        ledger::entry_views(out@) == l.book().entries.filter(ledger::touches(account@)),
{
    let found = l.history(account);
    let mut out: Vec<Entry> = Vec::new();
    let mut i: usize = 0;
    let ghost listed = found@.map_values(|e: &Entry| *e);
    while i < found.len()
        invariant
            i <= found@.len(),
            listed == found@.map_values(|e: &Entry| *e),
            out@ == listed.take(i as int),
        decreases found@.len() - i,
    {
        out.push(found[i].clone());
        i = i + 1;
        assert(out@ =~= listed.take(i as int));
    }
    proof {
        assert(listed.take(i as int) =~= listed);
        ledger::lemma_history_views(l.log(), account@);
        l.lemma_book_entries();
    }
    out
}

impl LedgerStore for Ledger {
    open spec fn store_wf(&self) -> bool {
        self.wf()
    }

    open spec fn kept(&self) -> Book {
        self.book()
    }

    open spec fn refusal(&self) -> Option<LedgerErrorView> {
        None
    }

    open spec fn durability(&self, seq: nat) -> Durability {
        Durability::Memory
    }

    /// The in-memory backend has no durable storage, so nothing is at risk of
    /// outliving it: the highest tick it has seen.
    open spec fn acked(&self) -> nat {
        highest_tick(self.book().entries)
    }

    open spec fn has_space(&self) -> bool {
        self.has_room()
    }

    proof fn lemma_kept_book_is_whole(&self) {
        self.lemma_wf();
    }

    fn transfer(&mut self, req: TransferRequest) -> (res: Result<StoredReceipt, LedgerError>) {
        match Ledger::transfer(self, req) {
            Ok(receipt) => Ok(StoredReceipt { receipt, durability: Durability::Memory }),
            Err(e) => Err(e),
        }
    }

    fn balance(&self, account: &Account, asset: &str) -> (r: Amount) {
        proof {
            self.lemma_wf();
        }
        Ledger::balance(self, account, asset)
    }

    fn available(&self, account: &Account, asset: &str) -> (r: Amount) {
        Ledger::available(self, account, asset)
    }

    fn reserve(&mut self, account: &Account, asset: &str, amount: Amount) -> (res: Result<
        ReservationId,
        LedgerError,
    >) {
        Ledger::reserve(self, account, asset, amount)
    }

    fn release(&mut self, id: ReservationId) -> (res: Result<(), LedgerError>) {
        Ledger::release(self, id)
    }

    fn history(&self, account: &Account) -> (r: Vec<Entry>) {
        cloned_history(self, account)
    }

    fn audit_zero_sum(&self) -> (out: Vec<Discrepancy>) {
        Ledger::audit_zero_sum(self)
    }

    fn total_minted(&self, asset: &str) -> (r: i128) {
        proof {
            self.lemma_wf();
        }
        Ledger::total_minted(self, asset)
    }

    fn acked_tick(&self) -> (t: u64) {
        let entries: &[Entry] = self.entries();
        let ghost es = self.book().entries;
        let mut best: u64 = 0;
        let mut i: usize = 0;
        assert(es.take(0) =~= Seq::<EntryView>::empty());
        while i < entries.len()
            invariant
                i <= entries@.len(),
                es == ledger::entry_views(entries@),
                best == highest_tick(es.take(i as int)),
            decreases entries@.len() - i,
        {
            proof {
                assert(es.take(i + 1).drop_last() =~= es.take(i as int));
                assert(es.take(i + 1).last() == entries@[i as int]@);
            }
            if entries[i].tick > best {
                best = entries[i].tick;
            }
            i = i + 1;
        }
        assert(es.take(i as int) =~= es);
        best
    }

    fn receipt_for(&self, key: &IdemKey) -> (r: Option<StoredReceipt>) {
        match self.receipt_for_inner(key) {
            Some(receipt) => Some(StoredReceipt { receipt, durability: Durability::Memory }),
            None => None,
        }
    }
}

/// The highest tick of a log is reached by one of its entries and passed by
/// none.
pub proof fn law_the_highest_tick_is_reached(es: Seq<EntryView>, i: int)
    ensures
        0 <= i < es.len() ==> es[i].tick <= highest_tick(es),
        es.len() > 0 ==> exists|j: int|
            0 <= j < es.len() && (#[trigger] es[j]).tick == highest_tick(es),
        es.len() == 0 ==> highest_tick(es) == 0,
    decreases es.len(),
{
    if es.len() > 0 {
        let front = es.drop_last();
        law_the_highest_tick_is_reached(front, i);
        if 0 <= i < front.len() {
            assert(front[i] == es[i]);
        }
        if es.last().tick > highest_tick(front) || front.len() == 0 {
            assert(es[es.len() - 1].tick == highest_tick(es));
        } else {
            let j = choose|j: int|
                0 <= j < front.len() && (#[trigger] front[j]).tick == highest_tick(front);
            assert(es[j] == front[j]);
        }
    }
}

/// A ledger in memory takes transfers at any time, and says of each that it is
/// in memory; its watermark is never behind what it holds.
pub proof fn law_memory_is_never_behind(l: &Ledger, seq: nat, i: int)
    ensures
        l.refusal() is None,
        l.durability(seq) is Memory,
        0 <= i < l.kept().entries.len() ==> l.kept().entries[i].tick <= l.acked(),
{
    law_the_highest_tick_is_reached(l.kept().entries, i);
}

/// What a ledger in memory tells as a store: its watermark is the highest tick
/// of its log, and a receipt is in memory.
pub proof fn law_what_a_ledger_in_memory_tells(
    l: &Ledger,
    tick: u64,
    key: &IdemKey,
    receipt: Option<StoredReceipt>,
    i: int,
)
    requires
        l.wf(),
        call_ensures(<Ledger as LedgerStore>::acked_tick, (l,), tick),
        call_ensures(<Ledger as LedgerStore>::receipt_for, (l, key), receipt),
    ensures
        0 <= i < l.book().entries.len() ==> l.book().entries[i].tick <= tick,
        l.book().entries.len() > 0 ==> exists|j: int|
            0 <= j < l.book().entries.len() && (#[trigger] l.book().entries[j]).tick == tick,
        receipt is Some <==> l.book().seen.contains_key(key@),
        receipt is Some ==> receipt->0.receipt@ == l.book().seen[key@]
            && receipt->0.durability is Memory,
{
    law_the_highest_tick_is_reached(l.book().entries, i);
}

/// What a transfer through a store in memory does: what the book's rules say,
/// and its receipt is in memory.
pub proof fn law_what_a_transfer_in_memory_does(
    req: TransferRequest,
    res: Result<StoredReceipt, LedgerError>,
)
    ensures
        forall|l: &mut Ledger|
            l.wf() && l.has_space() && #[trigger] call_ensures(
                <Ledger as LedgerStore>::transfer,
                (l, req),
                res,
            ) ==> {
                let (before, after) = (l.book(), (*final(l)).book());
                let used = before.seen.contains_key(req@.idem_key);
                &&& res is Ok ==> res->Ok_0.durability is Memory
                &&& used ==> res is Ok && after == before && res->Ok_0.receipt@.deduplicated
                &&& !used ==> (res is Ok <==> ledger::transfer_outcome(before, req@) is Ok)
                &&& !used && res is Ok ==> after.entries.len() == before.entries.len() + 2
                    && !res->Ok_0.receipt@.deduplicated && res->Ok_0.receipt@.debit_seq
                    == before.entries.len()
                &&& res is Err ==> after == before
            },
{
}

/// A history is what the log holds under the account, and nothing of another,
/// whichever store it is asked of.
pub proof fn law_a_history_is_what_the_log_holds(
    l: &Ledger,
    a: &Account,
    found: Vec<Entry>,
    e: EntryView,
)
    requires
        l.wf(),
        call_ensures(<Ledger as LedgerStore>::history, (l, a), found),
    ensures
        ledger::entry_views(found@).contains(e) <==> l.book().entries.contains(e) && e.account
            == a@,
{
    ledger::law_a_history_is_one_account(l.book().entries, a@, e);
}

} // verus!
