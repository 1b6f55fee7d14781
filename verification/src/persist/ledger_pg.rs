//! The durable ledger: same semantics, written through to a database.
//!
//! ```text
//! tick N   transfer() ──► validate against the in-memory core
//!                     ──► apply to balances, return a PENDING receipt
//!                     ──► push onto the journal
//!                              │
//! writer   ────────────────────┴─► BEGIN; two INSERTs; UPDATE watermark; COMMIT
//! thread                              │
//!                                     └─► acked_tick advances
//! ```
//!
//! The in-memory core is the same [`Ledger`], so validation is identical to
//! the in-memory backend: the database is durability, not a second
//! implementation of the rules. This module decides what is journalled, what
//! a batch holds, which rows it writes, what each outcome of a commit means
//! and when everything accepted is durable. Talking to the database is the
//! caller's edge.
//!
//! Past [`PgConfig::max_journal`] the ledger refuses new transfers rather
//! than growing until the box dies.

use crate::persist::ledger;
use crate::persist::ledger::{
    Account, AccountView, Amount, Book, Discrepancy, Entry, EntryView, IdemKey, Ledger, LedgerError,
    LedgerErrorView, ReceiptView, RequestView, ReservationId, TransferRequest,
};
use crate::persist::store;
use crate::persist::store::{Durability, LedgerStore, StoredReceipt};
use crate::text;
use vstd::prelude::*;
use vstd::string::*;

verus! {

/// How to reach the database, and how much slack the writer gets.
#[derive(Debug)]
pub struct PgConfig {
    /// libpq-style connection string.
    pub url: String,
    /// Journal depth past which new transfers are refused.
    pub max_journal: usize,
    /// Entries per transaction. Batching amortises round-trips; too large
    /// and a single failure re-does more work.
    pub batch: usize,
}

impl Clone for PgConfig {
    fn clone(&self) -> (r: Self)
        ensures
            r == *self,
    {
        PgConfig { url: self.url.clone(), max_journal: self.max_journal, batch: self.batch }
    }
}

impl PgConfig {
    /// The defaults for a database.
    pub fn new(url: &str) -> (c: Self)
        ensures
            c.url@ == url@,
            c.max_journal == 10_000,
            c.batch == 64,
    {
        PgConfig { url: url.to_owned(), max_journal: 10_000, batch: 64 }
    }
}

// ---------------------------------------------------------------------------
// Accounts and entries as rows.
// ---------------------------------------------------------------------------

/// The two columns that name an account.
pub open spec fn parts(a: AccountView) -> (Seq<char>, Seq<char>) {
    match a {
        AccountView::Player(id) => ("player"@, id),
        AccountView::System(id) => ("system"@, id),
        AccountView::Mint => ("mint"@, Seq::empty()),
        AccountView::Burn => ("burn"@, Seq::empty()),
    }
}

/// The account that two columns name. A kind that is not known is the sink.
pub open spec fn from_parts(kind: Seq<char>, id: Seq<char>) -> AccountView {
    if kind == "player"@ {
        AccountView::Player(id)
    } else if kind == "system"@ {
        AccountView::System(id)
    } else if kind == "mint"@ {
        AccountView::Mint
    } else {
        AccountView::Burn
    }
}

/// `(kind, id)` for the schema's two columns.
pub fn account_parts(a: &Account) -> (r: (String, String))
    ensures
        (r.0@, r.1@) == parts(a@),
{
    match a {
        Account::Player(id) => ("player".to_owned(), id.clone()),
        Account::System(id) => ("system".to_owned(), id.clone()),
        Account::Mint => ("mint".to_owned(), String::new()),
        Account::Burn => ("burn".to_owned(), String::new()),
    }
}

/// The account that two columns name.
pub fn account_from_parts(kind: &str, id: &str) -> (a: Account)
    ensures
        a@ == from_parts(kind@, id@),
{
    if text::str_same(kind, "player") {
        Account::Player(id.to_owned())
    } else if text::str_same(kind, "system") {
        Account::System(id.to_owned())
    } else if text::str_same(kind, "mint") {
        Account::Mint
    } else {
        Account::Burn
    }
}

/// An account survives its two columns.
pub proof fn law_account_columns_round_trip(a: AccountView)
    ensures
        from_parts(parts(a).0, parts(a).1) == a,
{
    reveal_strlit("player");
    reveal_strlit("system");
    reveal_strlit("mint");
    reveal_strlit("burn");
    assert("player"@[0] == 'p' && "system"@[0] == 's' && "mint"@[0] == 'm' && "burn"@[0] == 'b');
}

/// One row of the entries table.
#[derive(Debug, PartialEq, Eq)]
pub struct LedgerRow {
    pub idem_key: String,
    /// `"d"` for the debit of a transfer, `"c"` for its credit.
    pub side: String,
    pub tick: i64,
    pub account_kind: String,
    pub account_id: String,
    pub counterparty_kind: String,
    pub counterparty_id: String,
    pub asset: String,
    pub delta: i64,
    pub reason: String,
    pub actor: String,
}

#[verifier::ext_equal]
pub struct RowView {
    pub idem_key: Seq<char>,
    pub side: Seq<char>,
    pub tick: i64,
    pub account: (Seq<char>, Seq<char>),
    pub counterparty: (Seq<char>, Seq<char>),
    pub asset: Seq<char>,
    pub delta: int,
    pub reason: Seq<char>,
    pub actor: Seq<char>,
}

impl View for LedgerRow {
    type V = RowView;

    open spec fn view(&self) -> RowView {
        RowView {
            idem_key: self.idem_key@,
            side: self.side@,
            tick: self.tick,
            account: (self.account_kind@, self.account_id@),
            counterparty: (self.counterparty_kind@, self.counterparty_id@),
            asset: self.asset@,
            delta: self.delta as int,
            reason: self.reason@,
            actor: self.actor@,
        }
    }
}

/// The row of an entry. Ticks beyond the column's range wrap.
pub open spec fn row_of(e: EntryView, side: Seq<char>) -> RowView {
    RowView {
        idem_key: e.idem_key,
        side,
        tick: e.tick as i64,
        account: parts(e.account),
        counterparty: parts(e.counterparty),
        asset: e.asset,
        delta: e.delta,
        reason: e.reason,
        actor: e.actor,
    }
}

/// The row of an entry.
pub fn entry_row(e: &Entry, side: &str) -> (row: LedgerRow)
    ensures
        row@ == row_of(e@, side@),
{
    let (account_kind, account_id) = account_parts(&e.account);
    let (counterparty_kind, counterparty_id) = account_parts(&e.counterparty);
    LedgerRow {
        idem_key: e.idem_key.as_str().to_owned(),
        side: side.to_owned(),
        tick: e.tick as i64,
        account_kind,
        account_id,
        counterparty_kind,
        counterparty_id,
        asset: e.asset.clone(),
        delta: e.delta,
        reason: e.reason.clone(),
        actor: e.actor.clone(),
    }
}

// ---------------------------------------------------------------------------
// Replay.
// ---------------------------------------------------------------------------

/// The transfer that a debit row records. The smallest delta has no
/// opposite; it stays negative and is refused.
pub open spec fn request_of(row: RowView) -> RequestView {
    RequestView {
        idem_key: row.idem_key,
        from: from_parts(row.account.0, row.account.1),
        to: from_parts(row.counterparty.0, row.counterparty.1),
        asset: row.asset,
        amount: if row.delta == i64::MIN {
            row.delta
        } else {
            -row.delta
        },
        reason: row.reason,
        actor: row.actor,
        tick: if row.tick > 0 {
            row.tick as nat
        } else {
            0
        },
    }
}

/// Replaying rows from the `i`-th on: the book they lead to, and the first
/// refusal with its place. Credit rows are skipped: a debit row carries the
/// whole transfer.
pub open spec fn replayed(b: Book, rows: Seq<RowView>, i: nat) -> (
    Book,
    Option<(nat, LedgerErrorView)>,
)
    decreases rows.len() - i,
{
    if i >= rows.len() {
        (b, None)
    } else if rows[i as int].side != "d"@ {
        replayed(b, rows, i + 1)
    } else {
        let r = request_of(rows[i as int]);
        match ledger::transfer_outcome(b, r) {
            Ok(_) => replayed(ledger::transfer_after(b, r), rows, i + 1),
            Err(e) => (b, Some((i, e))),
        }
    }
}

/// What a failed replay says.
pub open spec fn replay_complaint(key: Seq<char>, i: nat, e: LedgerErrorView) -> Seq<char> {
    "replaying entry "@ + text::debug_quoted(key) + " (seq order "@ + text::decimal(i) + "): "@
        + e.text()
}

/// The rows by what they say.
pub open spec fn row_views(rows: Seq<LedgerRow>) -> Seq<RowView> {
    rows.map_values(|r: LedgerRow| r@)
}

/// Rebuild an in-memory ledger from committed rows.
///
/// Replays through the public API so the cache is rebuilt by exactly the
/// code that maintains it normally. A refused replay means the reconstructed
/// state disagrees with the durable log: better to refuse to start than to
/// start wrong.
pub fn replay_into(core: &mut Ledger, rows: &[LedgerRow]) -> (res: Result<(), String>)
    requires
        old(core).wf(),
        old(core).book().entries.len() + 2 * rows@.len() <= u64::MAX,
    ensures
        final(core).wf(),
        final(core).book() == replayed(old(core).book(), row_views(rows@), 0).0,
        match replayed(old(core).book(), row_views(rows@), 0).1 {
            None => res is Ok,
            Some((i, e)) => res is Err && res->Err_0@ == replay_complaint(
                rows@[i as int].idem_key@,
                i,
                e,
            ),
        },
{
    let ghost views = row_views(rows@);
    let mut i: usize = 0;
    while i < rows.len()
        invariant
            i <= rows@.len(),
            core.wf(),
            views == row_views(rows@),
            core.book().entries.len() + 2 * (rows@.len() - i) <= u64::MAX,
            replayed(old(core).book(), views, 0) == replayed(core.book(), views, i as nat),
        decreases rows@.len() - i,
    {
        let row: &LedgerRow = &rows[i];
        assert(views[i as int] == row@);
        if !text::str_same(row.side.as_str(), "d") {
            i = i + 1;
            continue ;
        }
        let amount: Amount = if row.delta == i64::MIN {
            row.delta
        } else {
            -row.delta
        };
        let tick: u64 = if row.tick > 0 {
            row.tick as u64
        } else {
            0
        };
        let req = TransferRequest {
            idem_key: IdemKey::server(row.idem_key.as_str()),
            from: account_from_parts(row.account_kind.as_str(), row.account_id.as_str()),
            to: account_from_parts(row.counterparty_kind.as_str(), row.counterparty_id.as_str()),
            asset: row.asset.clone(),
            amount,
            reason: row.reason.clone(),
            actor: row.actor.clone(),
            tick,
        };
        assert(req@ == request_of(row@));
        match core.transfer(req) {
            Ok(_) => {},
            Err(e) => {
                let mut why = "replaying entry ".to_owned();
                why.append(text::quoted(row.idem_key.as_str()).as_str());
                why.append(" (seq order ");
                text::push_decimal(&mut why, i as u128);
                why.append("): ");
                why.append(e.message().as_str());
                return Err(why);
            },
        }
        i = i + 1;
    }
    Ok(())
}

/// The rows that a log leaves in the table: for each transfer its debit,
/// then its credit.
pub open spec fn rows_of_log(es: Seq<EntryView>) -> Seq<RowView> {
    Seq::new(
        es.len(),
        |i: int| row_of(
            es[i],
            if i % 2 == 0 {
                "d"@
            } else {
                "c"@
            },
        ),
    )
}

/// What a restart knows of a book when only its first `n` entries were
/// written: those entries and their receipts, with nothing held.
pub open spec fn book_upto(b: Book, n: int) -> Book {
    Book {
        entries: b.entries.take(n),
        seen: Map::new(
            |k: Seq<char>| b.seen.contains_key(k) && b.seen[k].debit_seq < n,
            |k: Seq<char>| b.seen[k],
        ),
        holds: Seq::empty(),
        next_hold: 0,
    }
}

proof fn lemma_replay_step(b: Book, n: int)
    requires
        b.wf(),
        0 <= n < b.entries.len(),
        n % 2 == 0,
        b.entries[n].tick <= i64::MAX,
    ensures
        ({
            let r = request_of(rows_of_log(b.entries)[n]);
            &&& ledger::transfer_outcome(book_upto(b, n), r) is Ok
            &&& ledger::transfer_after(book_upto(b, n), r) == book_upto(b, n + 2)
        }),
{
    assert(b.pair_at(n / 2));
    let d = b.entries[n];
    let c = b.entries[n + 1];
    let before = book_upto(b, n);
    let r = request_of(rows_of_log(b.entries)[n]);
    law_account_columns_round_trip(d.account);
    law_account_columns_round_trip(d.counterparty);
    let mid = b.entries.take(n + 1);
    let two = b.entries.take(n + 2);
    assert(mid.drop_last() =~= b.entries.take(n));
    assert(two.drop_last() =~= mid);
    assert(i64::MIN <= ledger::entry_sum(mid, d.account, d.asset) <= i64::MAX);
    assert(i64::MIN <= ledger::entry_sum(two, c.account, c.asset) <= i64::MAX);
    assert(ledger::entry_sum(mid, c.account, c.asset) == ledger::entry_sum(
        b.entries.take(n),
        c.account,
        c.asset,
    ));
    lemma_delta_is_an_amount(b, n);
    assert(!before.seen.contains_key(d.idem_key));
    let after = ledger::transfer_after(before, r);
    assert(after.entries =~= two);
    assert(after.seen =~= book_upto(b, n + 2).seen) by {
        assert forall|key: Seq<char>| after.seen.contains_key(key) == book_upto(
            b,
            n + 2,
        ).seen.contains_key(key) by {
            if b.seen.contains_key(key) {
                assert(b.entries[b.seen[key].debit_seq as int].idem_key == key);
            }
        }
    }
}

/// A debit is never the smallest amount: its opposite was credited.
proof fn lemma_delta_is_an_amount(b: Book, n: int)
    requires
        b.wf(),
        0 <= n < b.entries.len(),
        n % 2 == 0,
    ensures
        b.entries[n].delta > i64::MIN,
{
    let k = n / 2;
    assert(b.pair_at(k));
    let d = b.entries[n];
    let c = b.entries[n + 1];
    let front = b.entries.take(n);
    let mid = b.entries.take(n + 1);
    let two = b.entries.take(n + 2);
    assert(mid.drop_last() =~= front && mid.last() == d);
    assert(two.drop_last() =~= mid && two.last() == c);
    let (from, to, s) = (d.account, c.account, d.asset);
    assert(i64::MIN <= ledger::entry_sum(front, from, s) <= i64::MAX);
    assert(i64::MIN <= ledger::entry_sum(mid, from, s) <= i64::MAX);
    assert(i64::MIN <= ledger::entry_sum(front, to, s) <= i64::MAX);
    assert(i64::MIN <= ledger::entry_sum(two, to, s) <= i64::MAX);
    assert(ledger::entry_sum(mid, from, s) == ledger::entry_sum(front, from, s) + d.delta);
    assert(ledger::entry_sum(mid, to, s) == ledger::entry_sum(front, to, s));
    assert(ledger::entry_sum(two, to, s) == ledger::entry_sum(mid, to, s) - d.delta);
    if from != AccountView::Mint {
        assert(0 <= ledger::entry_sum(mid, from, s));
    } else {
        // The receiver is not the mint, so it had nothing to owe.
        assert(0 <= ledger::entry_sum(front, to, s));
    }
}

proof fn lemma_replay_from(b: Book, n: int)
    requires
        b.wf(),
        0 <= n <= b.entries.len(),
        n % 2 == 0,
        forall|i: int| 0 <= i < b.entries.len() ==> (#[trigger] b.entries[i]).tick <= i64::MAX,
    ensures
        replayed(book_upto(b, n), rows_of_log(b.entries), n as nat) == (
            book_upto(b, b.entries.len() as int),
            None::<(nat, LedgerErrorView)>,
        ),
    decreases b.entries.len() - n,
{
    let rows = rows_of_log(b.entries);
    if n < b.entries.len() {
        assert(b.entries[n].tick <= i64::MAX);
        lemma_replay_step(b, n);
        lemma_replay_from(b, n + 2);
        reveal_strlit("d");
        reveal_strlit("c");
        assert("d"@[0] == 'd' && "c"@[0] == 'c');
        assert(rows[n].side == "d"@);
        assert(rows[n + 1].side == "c"@);
        assert(rows[n + 1].side != "d"@);
        assert(replayed(book_upto(b, n + 2), rows, (n + 1) as nat) == replayed(
            book_upto(b, n + 2),
            rows,
            (n + 2) as nat,
        ));
    }
}

/// A restart is correct: replaying the rows that a ledger wrote, into an
/// empty ledger, is never refused and gives back its log, its receipts and
/// so its balances. Only holds are gone: they were never written. Ticks must
/// fit their column.
pub proof fn law_replay_restores_the_book(b: Book)
    requires
        b.wf(),
        forall|i: int| 0 <= i < b.entries.len() ==> (#[trigger] b.entries[i]).tick <= i64::MAX,
    ensures
        replayed(Book::empty(), rows_of_log(b.entries), 0) == (
            Book { holds: Seq::empty(), next_hold: 0, ..b },
            None::<(nat, LedgerErrorView)>,
        ),
{
    lemma_replay_from(b, 0);
    let start = book_upto(b, 0);
    assert(start.entries =~= Seq::<EntryView>::empty());
    assert(start.seen =~= Map::<Seq<char>, ReceiptView>::empty());
    assert(start == Book::empty());
    let end = book_upto(b, b.entries.len() as int);
    assert(end.entries =~= b.entries);
    assert(end.seen =~= b.seen);
}

// ---------------------------------------------------------------------------
// The write-behind journal.
// ---------------------------------------------------------------------------

/// One transfer awaiting durability.
#[derive(Clone, Debug)]
pub struct Pending {
    pub idem_key: IdemKey,
    pub tick: u64,
    pub debit: Entry,
    pub credit: Entry,
}

#[verifier::ext_equal]
pub struct PendingView {
    pub idem_key: Seq<char>,
    pub tick: nat,
    pub debit: EntryView,
    pub credit: EntryView,
}

impl View for Pending {
    type V = PendingView;

    open spec fn view(&self) -> PendingView {
        PendingView {
            idem_key: self.idem_key@,
            tick: self.tick as nat,
            debit: self.debit@,
            credit: self.credit@,
        }
    }
}

/// Transfers by what they say.
pub open spec fn pending_views(ps: Seq<Pending>) -> Seq<PendingView> {
    ps.map_values(|p: Pending| p@)
}

/// The transfer whose debit is the `i`-th entry of a log.
pub open spec fn pending_at(es: Seq<EntryView>, i: int) -> PendingView {
    PendingView {
        idem_key: es[i].idem_key,
        tick: es[i].tick,
        debit: es[i],
        credit: es[i + 1],
    }
}

/// The rows that transfers are written as: for each its debit, then its
/// credit.
pub open spec fn rows_of(ps: Seq<PendingView>) -> Seq<RowView> {
    Seq::new(
        2 * ps.len(),
        |i: int|
            if i % 2 == 0 {
                row_of(ps[i / 2].debit, "d"@)
            } else {
                row_of(ps[i / 2].credit, "c"@)
            },
    )
}

/// The highest tick among transfers, zero where there is none.
pub open spec fn highest(ps: Seq<PendingView>) -> nat
    decreases ps.len(),
{
    if ps.len() == 0 {
        0
    } else if ps.last().tick > highest(ps.drop_last()) {
        ps.last().tick
    } else {
        highest(ps.drop_last())
    }
}

/// How far a watermark may go that has reached `done` while `rest` is still
/// outstanding: not to the tick of any of them.
pub open spec fn short_of(done: nat, rest: Seq<PendingView>) -> nat
    decreases rest.len(),
{
    if rest.len() == 0 {
        done
    } else {
        let before = short_of(done, rest.drop_last());
        let tick = rest.last().tick;
        if tick > before {
            before
        } else if tick == 0 {
            0
        } else {
            (tick - 1) as nat
        }
    }
}

/// The larger of two ticks.
pub open spec fn later(a: nat, b: nat) -> nat {
    if a > b {
        a
    } else {
        b
    }
}

/// The state of a durable ledger.
#[verifier::ext_equal]
pub struct Desk {
    /// The book, as the simulation sees it.
    pub book: Book,
    /// The batch that the writer is committing.
    pub in_flight: Seq<PendingView>,
    /// Transfers that no batch holds yet, oldest first.
    pub journal: Seq<PendingView>,
    /// Transfers accepted since the ledger was opened.
    pub accepted: nat,
    /// Transfers committed since the ledger was opened.
    pub committed: nat,
    /// The highest tick that a committed transfer carries.
    pub done: nat,
    /// The watermark: the highest tick whose transfers are all durable.
    pub acked: nat,
    /// Why the writer died.
    pub failed: Option<Seq<char>>,
    /// Journal depth past which new transfers are refused.
    pub limit: nat,
}

impl Desk {
    /// What is accepted and not yet durable, oldest first.
    pub open spec fn outstanding(self) -> Seq<PendingView> {
        self.in_flight + self.journal
    }

    /// How many entries of the log are durable.
    pub open spec fn durable(self) -> int {
        self.book.entries.len() - 2 * self.outstanding().len()
    }

    /// The rows that are in the table.
    pub open spec fn durable_rows(self) -> Seq<RowView> {
        rows_of_log(self.book.entries.take(self.durable()))
    }

    /// The book is whole, nothing that was accepted is lost between the
    /// journal and the table, and what is outstanding is the tail of the log.
    pub open spec fn wf(self) -> bool {
        &&& self.book.wf()
        &&& self.accepted == self.committed + self.outstanding().len()
        &&& 2 * self.accepted <= self.book.entries.len()
        &&& forall|k: int|
            0 <= k < self.outstanding().len() ==> #[trigger] self.outstanding()[k] == pending_at(
                self.book.entries,
                self.durable() + 2 * k,
            )
    }

    /// Why no new transfer is taken at the moment.
    pub open spec fn refusal(self) -> Option<LedgerErrorView> {
        match self.failed {
            Some(why) => Some(LedgerErrorView::WriterFailed(why)),
            None => if self.journal.len() >= self.limit {
                Some(LedgerErrorView::WriterBehind { depth: self.journal.len(), limit: self.limit })
            } else {
                None
            },
        }
    }
}

/// A ledger that was just opened on a book and a watermark.
pub open spec fn opened(b: Book, acked: nat, limit: nat) -> Desk {
    Desk {
        book: b,
        in_flight: Seq::empty(),
        journal: Seq::empty(),
        accepted: 0,
        committed: 0,
        done: acked,
        acked,
        failed: None,
        limit,
    }
}

/// After a transfer was asked for. A transfer that moved nothing is not
/// journalled: its rows are in the table already, or in the journal. So a
/// repeat changes nothing, whether or not new transfers are taken.
pub open spec fn asked(d: Desk, r: RequestView) -> Desk {
    if d.book.seen.contains_key(r.idem_key) || d.refusal() is Some {
        d
    } else {
        let book = ledger::transfer_after(d.book, r);
        if ledger::moves_value(d.book, r) {
            Desk {
                book,
                journal: d.journal.push(pending_at(book.entries, d.book.entries.len() as int)),
                accepted: d.accepted + 1,
                ..d
            }
        } else {
            Desk { book, ..d }
        }
    }
}

/// After the writer asked for a batch. There is one batch at a time, and
/// none after the writer has failed.
pub open spec fn batched(d: Desk, batch: nat) -> Desk {
    if d.in_flight.len() > 0 || d.failed is Some {
        d
    } else {
        let n = if d.journal.len() < batch {
            d.journal.len() as int
        } else {
            batch as int
        };
        Desk { in_flight: d.journal.take(n), journal: d.journal.skip(n), ..d }
    }
}

/// The watermark that a commit of the batch in flight earns: the highest tick
/// written so far, short of whatever the batch leaves in the journal.
pub open spec fn earned(d: Desk) -> nat {
    short_of(later(d.done, highest(d.in_flight)), d.journal)
}

/// After the batch was committed. Only then are its ticks durable, and a tick
/// that the batch cuts in two is not. The watermark never goes back.
pub open spec fn committed(d: Desk) -> Desk {
    Desk {
        in_flight: Seq::empty(),
        committed: d.committed + d.in_flight.len(),
        done: later(d.done, highest(d.in_flight)),
        acked: later(d.acked, earned(d)),
        ..d
    }
}

/// After the batch could not be committed: its transfers are outstanding
/// again, in front of those that came later.
pub open spec fn abandoned(d: Desk, why: Seq<char>) -> Desk {
    Desk {
        in_flight: Seq::empty(),
        journal: d.in_flight + d.journal,
        failed: Some("ledger writer failed: "@ + why),
        ..d
    }
}

/// What a flush that polls now answers; `None` is to poll again.
pub open spec fn flush_answer(d: Desk, timed_out: bool) -> Option<Result<(), Seq<char>>> {
    match d.failed {
        Some(why) => Some(Err(why)),
        None => if d.committed >= d.accepted {
            Some(Ok(()))
        } else if timed_out {
            Some(Err("timed out waiting for the writer"@))
        } else {
            None
        },
    }
}

/// A batch for the writer: one transaction writes the rows and raises the
/// watermark.
#[derive(Debug, PartialEq, Eq)]
pub struct Batch {
    pub rows: Vec<LedgerRow>,
    /// What the watermark is raised to.
    pub acked_tick: i64,
}

/// Whether a failed insert means that the row is already there.
///
/// A unique violation means this transfer is already durable — the process
/// restarted mid-batch, say. That is success, not failure: the whole point of
/// the constraint is that a replay cannot double-write. `code` is the
/// SQLSTATE of the failure, where the database gave one.
pub fn already_written(code: Option<&str>) -> (r: bool)
    ensures
        r == (code is Some && code->0@ == "23505"@),
{
    match code {
        Some(c) => text::str_same(c, "23505"),
        None => false,
    }
}

/// A ledger with a durable log behind it.
///
/// Validation happens in the in-memory core; this adds durability.
pub struct PgLedger {
    core: Ledger,
    journal: Vec<Pending>,
    in_flight: Vec<Pending>,
    /// Transfers accepted by the sim, ever.
    accepted: u64,
    /// Transfers actually committed, ever.
    ///
    /// Separate from the journal being empty: the writer takes work out of
    /// the journal *before* committing it, so there is a window in which the
    /// journal is empty and nothing is durable.
    committed: u64,
    /// The highest tick that a committed transfer carries. A batch may hold
    /// only part of a tick, so this can be ahead of `acked_tick`.
    done_tick: u64,
    acked_tick: u64,
    /// Set when the writer dies. A ledger whose writer is gone must stop
    /// accepting value movements rather than silently becoming in-memory
    /// only.
    writer_failed: Option<String>,
    max_journal: usize,
}

impl View for PgLedger {
    type V = Desk;

    closed spec fn view(&self) -> Desk {
        Desk {
            book: self.core.book(),
            in_flight: pending_views(self.in_flight@),
            journal: pending_views(self.journal@),
            accepted: self.accepted as nat,
            committed: self.committed as nat,
            done: self.done_tick as nat,
            acked: self.acked_tick as nat,
            failed: match self.writer_failed {
                Some(why) => Some(why@),
                None => None,
            },
            limit: self.max_journal as nat,
        }
    }
}

impl PgLedger {
    /// The core is well formed, and so is the state around it.
    pub closed spec fn wf(&self) -> bool {
        self.core.wf() && self@.wf()
    }

    /// The in-memory core.
    pub closed spec fn inner(&self) -> Ledger {
        self.core
    }

    /// Open the ledger on the committed rows, in the order they were
    /// written, and the committed watermark.
    ///
    /// Replay is what makes a restart correct: the in-memory core is rebuilt
    /// from the durable log, so balances after a restart are derived from it
    /// rather than from a checkpoint that might be ahead of it.
    pub fn open(cfg: &PgConfig, rows: &[LedgerRow], acked: i64) -> (res: Result<Self, String>)
        requires
            2 * rows@.len() <= u64::MAX,
        ensures
            match replayed(Book::empty(), row_views(rows@), 0).1 {
                None => {
                    &&& res is Ok
                    &&& res->Ok_0.wf()
                    &&& res->Ok_0@ == opened(
                        replayed(Book::empty(), row_views(rows@), 0).0,
                        if acked > 0 {
                            acked as nat
                        } else {
                            0
                        },
                        cfg.max_journal as nat,
                    )
                    &&& ahead(res->Ok_0@)
                },
                Some((i, e)) => res is Err && res->Err_0@ == replay_complaint(
                    rows@[i as int].idem_key@,
                    i,
                    e,
                ),
            },
    {
        let mut core = Ledger::new();
        match replay_into(&mut core, rows) {
            Err(why) => Err(why),
            Ok(()) => {
                proof {
                    core.lemma_wf();
                }
                let watermark: u64 = if acked > 0 {
                    acked as u64
                } else {
                    0
                };
                let l = PgLedger {
                    core,
                    journal: Vec::new(),
                    in_flight: Vec::new(),
                    accepted: 0,
                    committed: 0,
                    done_tick: watermark,
                    acked_tick: watermark,
                    writer_failed: None,
                    max_journal: cfg.max_journal,
                };
                assert(l@.in_flight =~= Seq::<PendingView>::empty());
                assert(l@.journal =~= Seq::<PendingView>::empty());
                Ok(l)
            },
        }
    }

    /// Whether everything accepted so far is durable: what a flush that polls
    /// now answers. `None` means to poll again.
    ///
    /// For a clean shutdown. Waiting on the journal alone would report
    /// success while a batch is still being written.
    pub fn flush(&self, timed_out: bool) -> (r: Option<Result<(), String>>)
        ensures
            match flush_answer(self@, timed_out) {
                None => r is None,
                Some(Ok(_)) => r == Some(Ok::<(), String>(())),
                Some(Err(why)) => r is Some && r->0 is Err && r->0->Err_0@ == why,
            },
    {
        if let Some(why) = &self.writer_failed {
            return Some(Err(why.clone()));
        }
        if self.committed >= self.accepted {
            return Some(Ok(()));
        }
        if timed_out {
            return Some(Err("timed out waiting for the writer".to_owned()));
        }
        None
    }

    /// How many transfers are waiting to be committed. Worth surfacing: a
    /// number that only grows means the writer is losing.
    pub fn journal_depth(&self) -> (n: usize)
        ensures
            n == self@.journal.len(),
    {
        self.journal.len()
    }

    /// The in-memory core, for its audits.
    pub fn core_ledger(&self) -> (l: &Ledger)
        ensures
            *l == self.inner(),
            l.book() == self@.book,
            self.wf() ==> l.wf(),
    {
        &self.core
    }

    /// Take the oldest transfers out of the journal, up to `batch` of them,
    /// and say what to write for them. `None` when there is nothing to write.
    pub fn next_batch(&mut self, batch: usize) -> (out: Option<Batch>)
        requires
            old(self).wf(),
            old(self)@.in_flight.len() == 0,
        ensures
            final(self).wf(),
            final(self)@ == batched(old(self)@, batch as nat),
            match out {
                Some(b) => {
                    &&& final(self)@.in_flight.len() > 0
                    &&& row_views(b.rows@) == rows_of(final(self)@.in_flight)
                    &&& b.acked_tick == earned(final(self)@) as i64
                },
                None => final(self)@.in_flight.len() == 0,
            },
    {
        let ghost before = self@;
        if self.writer_failed.is_some() {
            return None;
        }
        let n: usize = if self.journal.len() < batch {
            self.journal.len()
        } else {
            batch
        };
        let ghost journal = self.journal@;
        let rest = self.journal.split_off(n);
        let mut taken = rest;
        std::mem::swap(&mut taken, &mut self.journal);
        self.in_flight = taken;
        proof {
            assert(pending_views(journal.take(n as int)) =~= pending_views(journal).take(n as int));
            assert(pending_views(journal.skip(n as int)) =~= pending_views(journal).skip(n as int));
            assert(self@ =~= batched(before, batch as nat));
            assert(self@.outstanding() =~= before.outstanding());
        }
        if self.in_flight.len() == 0 {
            return None;
        }
        let rows = pending_rows(&self.in_flight);
        let acked_tick: u64 = short_of_pending(self.done_with_batch(), &self.journal);
        Some(Batch { rows, acked_tick: acked_tick as i64 })
    }

    /// The highest tick that is committed once the batch in flight is.
    fn done_with_batch(&self) -> (t: u64)
        ensures
            t == later(self@.done, highest(self@.in_flight)),
    {
        let highest_tick: u64 = highest_pending(&self.in_flight);
        if self.done_tick > highest_tick {
            self.done_tick
        } else {
            highest_tick
        }
    }

    /// How durable the transfer is whose debit is the `seq`-th entry: the log
    /// is durable up to what is outstanding.
    fn durability_of(&self, seq: u64) -> (r: Durability)
        requires
            self.wf(),
        ensures
            r == self.durability(seq as nat),
    {
        let logged: &[Entry] = self.core.entries();
        let total: usize = logged.len();
        assert(total == ledger::entry_views(logged@).len());
        let outstanding: usize = self.in_flight.len() + self.journal.len();
        if seq < (total - outstanding - outstanding) as u64 {
            Durability::Committed
        } else {
            Durability::Pending
        }
    }

    /// The batch is durable.
    pub fn batch_committed(&mut self)
        requires
            old(self).wf(),
        ensures
            final(self).wf(),
            final(self)@ == committed(old(self)@),
    {
        let ghost before = self@;
        self.done_tick = self.done_with_batch();
        let earned_tick: u64 = short_of_pending(self.done_tick, &self.journal);
        if earned_tick > self.acked_tick {
            self.acked_tick = earned_tick;
        }
        self.committed = self.committed + self.in_flight.len() as u64;
        self.in_flight = Vec::new();
        proof {
            assert(self@ =~= committed(before));
            let after = self@;
            assert(after.outstanding() =~= before.journal);
            assert forall|k: int| 0 <= k < after.outstanding().len() implies
                #[trigger] after.outstanding()[k] == pending_at(
                after.book.entries,
                after.durable() + 2 * k,
            ) by {
                assert(before.outstanding()[k + before.in_flight.len()] == after.outstanding()[k]);
            }
        }
    }

    /// The batch could not be committed, and the writer is gone. The work goes
    /// back so a flush sees it as outstanding rather than silently vanished.
    pub fn batch_failed(&mut self, why: &str)
        requires
            old(self).wf(),
        ensures
            final(self).wf(),
            final(self)@ == abandoned(old(self)@, why@),
    {
        let ghost before = self@;
        let ghost (work, rest) = (self.in_flight@, self.journal@);
        let mut msg = "ledger writer failed: ".to_owned();
        msg.append(why);
        self.writer_failed = Some(msg);
        self.in_flight.append(&mut self.journal);
        let mut all: Vec<Pending> = Vec::new();
        std::mem::swap(&mut all, &mut self.in_flight);
        self.journal = all;
        proof {
            assert(pending_views(work + rest) =~= pending_views(work) + pending_views(rest));
            assert(self@ =~= abandoned(before, why@));
            assert(self@.outstanding() =~= before.outstanding());
        }
    }
}

/// The rows that transfers are written as.
fn pending_rows(ps: &Vec<Pending>) -> (rows: Vec<LedgerRow>)
    ensures
        row_views(rows@) == rows_of(pending_views(ps@)),
{
    let mut rows: Vec<LedgerRow> = Vec::new();
    let mut i: usize = 0;
    while i < ps.len()
        invariant
            i <= ps@.len(),
            rows@.len() == 2 * i,
            forall|j: int|
                0 <= j < rows@.len() ==> (#[trigger] rows@[j])@ == rows_of(pending_views(ps@))[j],
        decreases ps@.len() - i,
    {
        let p: &Pending = &ps[i];
        rows.push(entry_row(&p.debit, "d"));
        rows.push(entry_row(&p.credit, "c"));
        assert((2 * i) / 2 == i && (2 * i + 1) / 2 == i);
        i = i + 1;
    }
    assert(row_views(rows@) =~= rows_of(pending_views(ps@)));
    rows
}

/// The highest tick among transfers.
fn highest_pending(ps: &Vec<Pending>) -> (t: u64)
    ensures
        t == highest(pending_views(ps@)),
{
    let ghost views = pending_views(ps@);
    let mut best: u64 = 0;
    let mut i: usize = 0;
    assert(views.take(0) =~= Seq::<PendingView>::empty());
    while i < ps.len()
        invariant
            i <= ps@.len(),
            views == pending_views(ps@),
            best == highest(views.take(i as int)),
        decreases ps@.len() - i,
    {
        proof {
            assert(views.take(i + 1).drop_last() =~= views.take(i as int));
            assert(views.take(i + 1).last() == ps@[i as int]@);
        }
        if ps[i].tick > best {
            best = ps[i].tick;
        }
        i = i + 1;
    }
    assert(views.take(i as int) =~= views);
    best
}

/// How far a watermark may go while transfers are outstanding.
fn short_of_pending(done: u64, ps: &Vec<Pending>) -> (t: u64)
    ensures
        t == short_of(done as nat, pending_views(ps@)),
{
    let ghost views = pending_views(ps@);
    let mut best: u64 = done;
    let mut i: usize = 0;
    assert(views.take(0) =~= Seq::<PendingView>::empty());
    while i < ps.len()
        invariant
            i <= ps@.len(),
            views == pending_views(ps@),
            best == short_of(done as nat, views.take(i as int)),
        decreases ps@.len() - i,
    {
        proof {
            assert(views.take(i + 1).drop_last() =~= views.take(i as int));
            assert(views.take(i + 1).last() == ps@[i as int]@);
        }
        if ps[i].tick <= best {
            best = if ps[i].tick == 0 {
                0
            } else {
                ps[i].tick - 1
            };
        }
        i = i + 1;
    }
    assert(views.take(i as int) =~= views);
    best
}

impl LedgerStore for PgLedger {
    open spec fn store_wf(&self) -> bool {
        self.wf()
    }

    open spec fn kept(&self) -> Book {
        self@.book
    }

    open spec fn refusal(&self) -> Option<LedgerErrorView> {
        self@.refusal()
    }

    /// A transfer that is repeated was accepted before; whether it is
    /// *durable* depends on how far the writer has got.
    open spec fn durability(&self, seq: nat) -> Durability {
        if seq < self@.durable() {
            Durability::Committed
        } else {
            Durability::Pending
        }
    }

    open spec fn acked(&self) -> nat {
        self@.acked
    }

    open spec fn has_space(&self) -> bool {
        self@.book.entries.len() + 2 <= u64::MAX
    }

    proof fn lemma_kept_book_is_whole(&self) {
    }

    fn transfer(&mut self, req: TransferRequest) -> (res: Result<StoredReceipt, LedgerError>)
        ensures
            final(self)@ == asked(old(self)@, req@),
    {
        let ghost before = self@;
        let ghost r = req@;
        // A repeat moves nothing, so it is answered whatever the writer does.
        if self.core.receipt_for_inner(&req.idem_key).is_none() {
            if let Some(why) = &self.writer_failed {
                return Err(LedgerError::WriterFailed(why.clone()));
            }
            if self.journal.len() >= self.max_journal {
                return Err(
                    LedgerError::WriterBehind {
                        depth: self.journal.len(),
                        limit: self.max_journal,
                    },
                );
            }
        }
        let logged: &[Entry] = self.core.entries();
        let at: usize = logged.len();
        assert(at == ledger::entry_views(logged@).len());
        match self.core.transfer(req) {
            Err(e) => {
                proof {
                    assert(self@ =~= asked(before, r));
                    assert(self@.outstanding() =~= before.outstanding());
                }
                Err(e)
            },
            Ok(receipt) => {
                // A deduplicated transfer wrote nothing, so there is nothing
                // to journal.
                if !receipt.deduplicated {
                    let entries: &[Entry] = self.core.entries();
                    assert(entries@.len() == ledger::entry_views(entries@).len());
                    let debit = entries[at].clone();
                    let credit = entries[at + 1].clone();
                    let pending = Pending {
                        idem_key: debit.idem_key.clone(),
                        tick: debit.tick,
                        debit,
                        credit,
                    };
                    let ghost journal = self.journal@;
                    let ghost es = self.core.book().entries;
                    assert(pending@ == pending_at(es, at as int));
                    self.journal.push(pending);
                    self.accepted = self.accepted + 1;
                    proof {
                        assert(pending_views(self.journal@) =~= pending_views(journal).push(
                            pending_at(es, at as int),
                        ));
                        lemma_journalled(before, r);
                    }
                } else {
                    proof {
                        assert(self@.outstanding() =~= before.outstanding());
                    }
                }
                proof {
                    assert(self@ =~= asked(before, r));
                    self.core.lemma_wf();
                }
                let durability = self.durability_of(receipt.debit_seq);
                Ok(StoredReceipt { receipt, durability })
            },
        }
    }

    fn balance(&self, account: &Account, asset: &str) -> (r: Amount) {
        proof {
            self.core.lemma_wf();
        }
        self.core.balance(account, asset)
    }

    fn available(&self, account: &Account, asset: &str) -> (r: Amount) {
        self.core.available(account, asset)
    }

    fn reserve(&mut self, account: &Account, asset: &str, amount: Amount) -> (res: Result<
        ReservationId,
        LedgerError,
    >)
        ensures
            final(self)@ == (Desk { book: final(self).kept(), ..old(self)@ }),
    {
        let ghost before = self@;
        let res = self.core.reserve(account, asset, amount);
        proof {
            self.core.lemma_wf();
            assert(self@.outstanding() == before.outstanding());
        }
        res
    }

    fn release(&mut self, id: ReservationId) -> (res: Result<(), LedgerError>)
        ensures
            final(self)@ == (Desk { book: final(self).kept(), ..old(self)@ }),
    {
        let ghost before = self@;
        let res = self.core.release(id);
        proof {
            self.core.lemma_wf();
            assert(self@.outstanding() == before.outstanding());
        }
        res
    }

    fn history(&self, account: &Account) -> (r: Vec<Entry>) {
        store::cloned_history(&self.core, account)
    }

    fn audit_zero_sum(&self) -> (out: Vec<Discrepancy>) {
        self.core.audit_zero_sum()
    }

    fn total_minted(&self, asset: &str) -> (r: i128) {
        proof {
            self.core.lemma_wf();
        }
        self.core.total_minted(asset)
    }

    fn acked_tick(&self) -> (t: u64) {
        self.acked_tick
    }

    fn receipt_for(&self, key: &IdemKey) -> (r: Option<StoredReceipt>) {
        match self.core.receipt_for_inner(key) {
            Some(receipt) => {
                let durability = self.durability_of(receipt.debit_seq);
                Some(StoredReceipt { receipt, durability })
            },
            None => None,
        }
    }
}

// ---------------------------------------------------------------------------
// Laws.
// ---------------------------------------------------------------------------

/// A transfer that is journalled leaves the rest of the log and of the
/// journal where they were.
proof fn lemma_journalled(d: Desk, r: RequestView)
    requires
        d.wf(),
    ensures
        asked(d, r).wf(),
        asked(d, r).durable() == d.durable(),
        asked(d, r).book.entries.take(d.durable()) == d.book.entries.take(d.durable()),
{
    let after = asked(d, r);
    ledger::lemma_transfer_keeps_wf(d.book, r);
    if d.refusal() is None && ledger::moves_value(d.book, r) {
        assert(after.outstanding() =~= d.outstanding().push(after.journal.last()));
        assert forall|k: int| 0 <= k < after.outstanding().len() implies
            #[trigger] after.outstanding()[k] == pending_at(
            after.book.entries,
            after.durable() + 2 * k,
        ) by {
            if k < d.outstanding().len() {
                assert(after.outstanding()[k] == d.outstanding()[k]);
                assert(d.outstanding()[k] == pending_at(d.book.entries, d.durable() + 2 * k));
            }
        }
    } else {
        assert(after.outstanding() == d.outstanding());
    }
    assert(after.book.entries.take(d.durable()) =~= d.book.entries.take(d.durable()));
}

proof fn lemma_batched(d: Desk, batch: nat)
    requires
        d.wf(),
    ensures
        batched(d, batch).wf(),
        batched(d, batch).outstanding() == d.outstanding(),
{
    assert(batched(d, batch).outstanding() =~= d.outstanding());
}

proof fn lemma_abandoned(d: Desk, why: Seq<char>)
    requires
        d.wf(),
    ensures
        abandoned(d, why).wf(),
        abandoned(d, why).outstanding() == d.outstanding(),
{
    assert(abandoned(d, why).outstanding() =~= d.outstanding());
}

/// Accepting a transfer, handing out a batch and losing one write nothing:
/// the rows in the table stay what they were.
pub proof fn law_only_a_commit_writes(d: Desk, r: RequestView, batch: nat, why: Seq<char>)
    requires
        d.wf(),
    ensures
        asked(d, r).durable_rows() == d.durable_rows(),
        batched(d, batch).durable_rows() == d.durable_rows(),
        abandoned(d, why).durable_rows() == d.durable_rows(),
{
    lemma_journalled(d, r);
    lemma_batched(d, batch);
    lemma_abandoned(d, why);
}

/// A commit appends exactly the rows of its batch, so the table always holds
/// the log in order, from its first entry on, with whole transfers.
pub proof fn law_a_commit_appends_its_batch(d: Desk)
    requires
        d.wf(),
    ensures
        committed(d).durable_rows() == d.durable_rows() + rows_of(d.in_flight),
{
    let after = committed(d);
    assert(after.outstanding() =~= d.journal);
    let n = d.durable();
    let m = after.durable();
    assert(m == n + 2 * d.in_flight.len());
    let es = d.book.entries;
    assert forall|i: int| 0 <= i < m implies after.durable_rows()[i] == (d.durable_rows() + rows_of(
        d.in_flight,
    ))[i] by {
        if i >= n {
            let k = (i - n) / 2;
            assert(n % 2 == 0);
            assert(d.outstanding()[k] == d.in_flight[k]);
            assert(d.in_flight[k] == pending_at(es, n + 2 * k));
        }
    }
    assert(after.durable_rows() =~= d.durable_rows() + rows_of(d.in_flight));
}

/// Everything that was accepted is either durable or outstanding: the batch
/// and the journal, in that order, are the log beyond its durable part.
pub proof fn law_nothing_accepted_is_lost(d: Desk)
    requires
        d.wf(),
    ensures
        d.durable_rows() + rows_of(d.outstanding()) == rows_of_log(d.book.entries),
{
    let n = d.durable();
    let es = d.book.entries;
    let all = d.durable_rows() + rows_of(d.outstanding());
    assert forall|i: int| 0 <= i < es.len() implies all[i] == rows_of_log(es)[i] by {
        if i >= n {
            let k = (i - n) / 2;
            assert(n % 2 == 0);
            assert(d.outstanding()[k] == pending_at(es, n + 2 * k));
        }
    }
    assert(all =~= rows_of_log(es));
}

/// A flush that succeeds means that every transfer is in the table.
pub proof fn law_a_flush_means_durable(d: Desk, timed_out: bool)
    requires
        d.wf(),
        flush_answer(d, timed_out) == Some(Ok::<(), Seq<char>>(())),
    ensures
        d.outstanding().len() == 0,
        d.durable_rows() == rows_of_log(d.book.entries),
{
    assert(d.book.entries.take(d.durable()) =~= d.book.entries);
}

/// A batch that fails is not lost: it is at the front of the journal again,
/// and the ledger takes no more transfers.
pub proof fn law_a_failed_batch_goes_back(d: Desk, why: Seq<char>, r: RequestView)
    requires
        d.wf(),
    ensures
        abandoned(d, why).journal == d.outstanding(),
        asked(abandoned(d, why), r) == abandoned(d, why),
        !(flush_answer(abandoned(d, why), false) matches Some(Ok(_))),
{
}

/// The first entries of a whole book are a whole book.
proof fn lemma_book_upto(b: Book, n: int)
    requires
        b.wf(),
        0 <= n <= b.entries.len(),
        n % 2 == 0,
    ensures
        book_upto(b, n).wf(),
{
    let p = book_upto(b, n);
    assert forall|k: int| 0 <= 2 * k < p.entries.len() implies #[trigger] p.pair_at(k) by {
        assert(b.pair_at(k));
    }
    assert forall|key: Seq<char>| #[trigger] p.seen.contains_key(key) implies {
        &&& p.seen[key].debit_seq < p.entries.len()
        &&& p.seen[key].debit_seq % 2 == 0
        &&& p.entries[p.seen[key].debit_seq as int].idem_key == key
    } by {
        assert(b.seen.contains_key(key));
    }
    assert forall|m: int, a: AccountView, s: Seq<char>| 0 <= m <= n implies i64::MIN
        <= #[trigger] ledger::entry_sum(p.entries.take(m), a, s) <= i64::MAX by {
        assert(p.entries.take(m) =~= b.entries.take(m));
    }
    assert forall|m: int, a: AccountView, s: Seq<char>|
        0 <= m <= n && a != AccountView::Mint implies 0 <= #[trigger] ledger::entry_sum(
        p.entries.take(m),
        a,
        s,
    ) by {
        assert(p.entries.take(m) =~= b.entries.take(m));
    }
}

/// What a crash costs: a restart from the table is never refused, and it
/// finds the book as it was without what was outstanding and without holds.
pub proof fn law_a_crash_loses_only_the_outstanding(d: Desk)
    requires
        d.wf(),
        forall|i: int| 0 <= i < d.durable() ==> (#[trigger] d.book.entries[i]).tick <= i64::MAX,
    ensures
        replayed(Book::empty(), d.durable_rows(), 0) == (
            book_upto(d.book, d.durable()),
            None::<(nat, LedgerErrorView)>,
        ),
{
    let n = d.durable();
    lemma_book_upto(d.book, n);
    law_replay_restores_the_book(book_upto(d.book, n));
}

/// Everything outstanding is later than the watermark, once there is one.
pub open spec fn ahead(d: Desk) -> bool {
    d.acked > 0 ==> forall|i: int|
        0 <= i < d.outstanding().len() ==> (#[trigger] d.outstanding()[i]).tick > d.acked
}

/// A watermark that stops short of transfers is below each of them, and is
/// the highest such tick that was reached.
proof fn lemma_short_of(done: nat, rest: Seq<PendingView>)
    ensures
        short_of(done, rest) <= done,
        short_of(done, rest) > 0 ==> forall|i: int|
            0 <= i < rest.len() ==> (#[trigger] rest[i]).tick > short_of(done, rest),
        short_of(done, rest) < done ==> exists|i: int|
            0 <= i < rest.len() && (#[trigger] rest[i]).tick <= short_of(done, rest) + 1,
    decreases rest.len(),
{
    if rest.len() > 0 {
        let front = rest.drop_last();
        lemma_short_of(done, front);
        let w = short_of(done, rest);
        assert forall|i: int| 0 <= i < rest.len() && w > 0 implies (#[trigger] rest[i]).tick > w by {
            if i < front.len() {
                assert(front[i] == rest[i]);
            }
        }
        if w < done {
            if rest.last().tick > short_of(done, front) {
                let i = choose|i: int| 0 <= i < front.len() && (#[trigger] front[i]).tick <= w + 1;
                assert(rest[i] == front[i]);
            } else {
                assert(rest[rest.len() - 1].tick <= w + 1);
            }
        }
    }
}

/// The watermark never passes a transfer that is not durable, wherever a
/// batch cuts a tick: whatever is outstanding is later than the watermark.
/// Handing out a batch, committing it and losing it keep that, and so does
/// accepting a transfer that is later than the watermark.
pub proof fn law_the_watermark_tells_the_truth(d: Desk, r: RequestView, batch: nat, why: Seq<char>)
    requires
        d.wf(),
        ahead(d),
    ensures
        ahead(batched(d, batch)),
        ahead(committed(d)),
        ahead(abandoned(d, why)),
        d.acked == 0 || r.tick > d.acked ==> ahead(asked(d, r)),
{
    lemma_batched(d, batch);
    lemma_abandoned(d, why);
    let after = asked(d, r);
    if d.refusal() is None && ledger::moves_value(d.book, r) {
        assert(after.outstanding() =~= d.outstanding().push(after.journal.last()));
        assert(after.journal.last().tick == r.tick);
    } else {
        assert(after.outstanding() == d.outstanding());
    }
    let done = committed(d);
    assert(done.outstanding() =~= d.journal);
    lemma_short_of(later(d.done, highest(d.in_flight)), d.journal);
    assert forall|i: int| 0 <= i < done.outstanding().len() && done.acked > 0 implies (
    #[trigger] done.outstanding()[i]).tick > done.acked by {
        assert(d.outstanding()[d.in_flight.len() + i] == d.journal[i]);
    }
}

/// Everything up to the watermark is durable: a transfer that the watermark
/// covers has its rows in the table.
pub proof fn law_up_to_the_watermark_is_durable(d: Desk, i: int)
    requires
        d.wf(),
        ahead(d),
        0 <= i < d.book.entries.len(),
        0 < d.acked,
        d.book.entries[i].tick <= d.acked,
    ensures
        i < d.durable(),
        d.durable_rows()[i] == rows_of_log(d.book.entries)[i],
{
    let n = d.durable();
    if i >= n {
        let k = (i - n) / 2;
        assert(d.book.pair_at(i / 2));
        assert(d.outstanding()[k] == pending_at(d.book.entries, n + 2 * k));
    }
}

/// The watermark does not lag either: once nothing is outstanding it covers
/// every tick that was committed, and short of that the next tick is one that
/// something outstanding carries. It never goes back.
pub proof fn law_the_watermark_keeps_up(d: Desk)
    requires
        d.wf(),
    ensures
        committed(d).acked >= d.acked,
        d.journal.len() == 0 ==> committed(d).acked >= highest(d.in_flight),
        committed(d).acked < highest(d.in_flight) ==> exists|i: int|
            0 <= i < d.journal.len() && (#[trigger] d.journal[i]).tick <= committed(d).acked + 1,
{
    lemma_short_of(later(d.done, highest(d.in_flight)), d.journal);
    if committed(d).acked < highest(d.in_flight) {
        let i = choose|i: int|
            0 <= i < d.journal.len() && (#[trigger] d.journal[i]).tick <= earned(d) + 1;
        assert(d.journal[i].tick <= committed(d).acked + 1);
    }
}

/// A receipt tells the truth about durability: it says committed exactly where
/// the rows of its transfer are in the table, whatever tick a repeated request
/// carries.
pub proof fn law_a_receipt_tells_the_truth(l: &PgLedger, key: Seq<char>)
    requires
        l.wf(),
        l.kept().seen.contains_key(key),
    ensures
        ({
            let receipt = l.kept().seen[key];
            let committed_now = l.durability(receipt.debit_seq) == Durability::Committed;
            &&& committed_now <==> receipt.debit_seq + 1 < l@.durable_rows().len()
            &&& committed_now ==> l@.durable_rows()[receipt.debit_seq as int] == row_of(
                l.kept().entries[receipt.debit_seq as int],
                "d"@,
            )
            &&& l.kept().entries[receipt.debit_seq as int].idem_key == key
            &&& !committed_now ==> l.durability(receipt.debit_seq) == Durability::Pending
        }),
{
    l.core.lemma_wf();
    let b = l@.book;
    let at = b.seen[key].debit_seq as int;
    assert(b.pair_at(at / 2));
    assert(l@.durable() % 2 == 0);
}

/// Whatever happens next, what is committed stays committed, and a commit makes
/// its whole batch so.
pub proof fn law_durability_only_grows(d: Desk, r: RequestView, batch: nat, why: Seq<char>)
    requires
        d.wf(),
    ensures
        asked(d, r).durable() == d.durable(),
        batched(d, batch).durable() == d.durable(),
        abandoned(d, why).durable() == d.durable(),
        committed(d).durable() == d.durable() + 2 * d.in_flight.len(),
{
    lemma_journalled(d, r);
    lemma_batched(d, batch);
    lemma_abandoned(d, why);
    assert(committed(d).outstanding() =~= d.journal);
}

/// A transfer happens once: asked for again under its key, it changes nothing
/// of the ledger, whether its rows wait, are being written or are in the table,
/// and whether the writer keeps up, is behind or is gone.
pub proof fn law_a_repeat_changes_nothing(
    d: Desk,
    r: RequestView,
    again: RequestView,
    batch: nat,
    why: Seq<char>,
)
    requires
        d.wf(),
        d.refusal() is None,
        ledger::moves_value(d.book, r),
        again.idem_key == r.idem_key,
    ensures
        ({
            let once = asked(d, r);
            let taken = batched(once, batch);
            &&& asked(once, again) == once
            &&& asked(taken, again) == taken
            &&& asked(committed(taken), again) == committed(taken)
            &&& asked(abandoned(taken, why), again) == abandoned(taken, why)
        }),
{
}

/// A journal never grows past its limit: a full one refuses, and says how
/// deep it is.
pub proof fn law_the_journal_is_bounded(d: Desk, r: RequestView)
    requires
        d.wf(),
        d.journal.len() <= d.limit,
    ensures
        asked(d, r).journal.len() <= d.limit,
        d.failed is None && d.journal.len() == d.limit ==> d.refusal() == Some(
            LedgerErrorView::WriterBehind { depth: d.limit, limit: d.limit },
        ) && asked(d, r) == d,
{
}

/// A row says column by column what its entry says.
pub proof fn law_a_row_says_what_its_entry_says(e: &Entry, side: &str, row: LedgerRow)
    requires
        call_ensures(entry_row, (e, side), row),
        e.tick <= i64::MAX,
    ensures
        row.idem_key@ == e@.idem_key,
        row.side@ == side@,
        row.tick == e.tick,
        row.asset@ == e.asset@,
        row.delta == e.delta,
        row.reason@ == e.reason@,
        row.actor@ == e.actor@,
        e.account is Player ==> row.account_kind@ == "player"@ && row.account_id@
            == e.account->Player_0@,
        e.account is System ==> row.account_kind@ == "system"@ && row.account_id@
            == e.account->System_0@,
        e.account is Mint ==> row.account_kind@ == "mint"@ && row.account_id@.len() == 0,
        e.account is Burn ==> row.account_kind@ == "burn"@ && row.account_id@.len() == 0,
        e.counterparty is Player ==> row.counterparty_kind@ == "player"@ && row.counterparty_id@
            == e.counterparty->Player_0@,
        e.counterparty is System ==> row.counterparty_kind@ == "system"@ && row.counterparty_id@
            == e.counterparty->System_0@,
        e.counterparty is Mint ==> row.counterparty_kind@ == "mint"@ && row.counterparty_id@.len()
            == 0,
        e.counterparty is Burn ==> row.counterparty_kind@ == "burn"@ && row.counterparty_id@.len()
            == 0,
{
    assert(row@.idem_key == e@.idem_key && row@.side == side@ && row@.asset == e@.asset);
    assert(row@.reason == e@.reason && row@.actor == e@.actor && row@.delta == e@.delta);
    assert(row@.account == parts(e@.account) && row@.counterparty == parts(e@.counterparty));
}

/// A debit row is read as the transfer that it records: from its account to its
/// counterparty, of as much as it takes away.
pub proof fn law_a_debit_row_is_read_as_its_transfer(row: RowView)
    ensures
        request_of(row).idem_key == row.idem_key,
        request_of(row).asset == row.asset,
        request_of(row).reason == row.reason,
        request_of(row).actor == row.actor,
        row.delta > i64::MIN ==> request_of(row).amount + row.delta == 0,
        row.delta == i64::MIN ==> request_of(row).amount < 0,
        row.tick >= 0 ==> request_of(row).tick == row.tick,
        row.tick < 0 ==> request_of(row).tick == 0,
        parts(request_of(row).from).0 == row.account.0 || parts(request_of(row).from).0 == "burn"@,
        parts(request_of(row).to).0 == row.counterparty.0 || parts(request_of(row).to).0
            == "burn"@,
        row.account.0 == "player"@ || row.account.0 == "system"@ ==> parts(request_of(row).from)
            == row.account,
        row.counterparty.0 == "player"@ || row.counterparty.0 == "system"@ ==> parts(
            request_of(row).to,
        ) == row.counterparty,
{
}

proof fn lemma_replay_appends(b: Book, rows: Seq<RowView>, row: RowView, i: nat)
    requires
        i <= rows.len(),
    ensures
        ({
            let (book, stopped) = replayed(b, rows, i);
            let longer = replayed(b, rows.push(row), i);
            &&& stopped is Some ==> longer == (book, stopped)
            &&& stopped is None ==> longer == replayed(book, rows.push(row), rows.len())
        }),
    decreases rows.len() - i,
{
    if i < rows.len() {
        assert(rows.push(row)[i as int] == rows[i as int]);
        if rows[i as int].side != "d"@ {
            lemma_replay_appends(b, rows, row, i + 1);
        } else {
            let r = request_of(rows[i as int]);
            if ledger::transfer_outcome(b, r) is Ok {
                lemma_replay_appends(ledger::transfer_after(b, r), rows, row, i + 1);
            }
        }
    }
}

/// Replay goes row by row, in order: a debit is the transfer it records, any
/// other row changes nothing, and the first refusal ends it, with the number of
/// its row, however many rows follow.
pub proof fn law_replay_goes_row_by_row(b: Book, rows: Seq<RowView>, row: RowView)
    ensures
        replayed(b, Seq::empty(), 0) == (b, None::<(nat, LedgerErrorView)>),
        replayed(b, rows, 0).1 is Some ==> replayed(b, rows.push(row), 0) == replayed(b, rows, 0),
        replayed(b, rows, 0).1 is None && row.side != "d"@ ==> replayed(b, rows.push(row), 0)
            == replayed(b, rows, 0),
        replayed(b, rows, 0).1 is None && row.side == "d"@ && ledger::transfer_outcome(
            replayed(b, rows, 0).0,
            request_of(row),
        ) is Ok ==> replayed(b, rows.push(row), 0) == (
            ledger::transfer_after(replayed(b, rows, 0).0, request_of(row)),
            None::<(nat, LedgerErrorView)>,
        ),
        replayed(b, rows, 0).1 is None && row.side == "d"@ && ledger::transfer_outcome(
            replayed(b, rows, 0).0,
            request_of(row),
        ) is Err ==> replayed(b, rows.push(row), 0) == (
            replayed(b, rows, 0).0,
            Some(
                (
                    rows.len(),
                    ledger::transfer_outcome(replayed(b, rows, 0).0, request_of(row))->Err_0,
                ),
            ),
        ),
{
    lemma_replay_appends(b, rows, row, 0);
    reveal_with_fuel(replayed, 2);
    assert(rows.push(row)[rows.len() as int] == row);
}

/// A new transfer is taken unless the writer has failed or the journal is full:
/// the refusal gives the reason of the failure, or the depth and the limit.
pub proof fn law_when_transfers_are_refused(d: Desk)
    ensures
        d.refusal() is None <==> d.failed is None && d.journal.len() < d.limit,
        d.failed is Some ==> d.refusal() == Some(LedgerErrorView::WriterFailed(d.failed->0)),
        d.failed is None && d.journal.len() >= d.limit ==> d.refusal() == Some(
            LedgerErrorView::WriterBehind { depth: d.journal.len(), limit: d.limit },
        ),
{
}

/// A transfer that moved value is journalled behind the others, with the two
/// entries that it wrote. A repeat, and a refusal by the ledger's own rules or
/// by the journal, journals nothing; and none of them touches what is in
/// flight, what is committed or the watermark.
pub proof fn law_what_moved_is_journalled(d: Desk, r: RequestView)
    requires
        d.wf(),
    ensures
        ({
            let after = asked(d, r);
            let moved = after.book.entries.len() > d.book.entries.len();
            &&& moved ==> after.book.entries.len() == d.book.entries.len() + 2
            &&& moved ==> after.journal.len() == d.journal.len() + 1 && after.accepted == d.accepted
                + 1
            &&& moved ==> after.journal.take(d.journal.len() as int) == d.journal
            &&& moved ==> after.journal.last().idem_key == r.idem_key && after.journal.last().tick
                == r.tick
            &&& moved ==> after.journal.last().debit
                == after.book.entries[d.book.entries.len() as int] && after.journal.last().credit == after.book.entries.last()
            &&& !moved ==> after.journal == d.journal && after.accepted == d.accepted
            &&& d.book.seen.contains_key(r.idem_key) || d.failed is Some || d.journal.len()
                >= d.limit ==> after == d
            &&& after.in_flight == d.in_flight && after.committed == d.committed && after.done
                == d.done && after.acked == d.acked && after.failed == d.failed && after.limit
                == d.limit
        }),
{
    let after = asked(d, r);
    ledger::lemma_transfer_keeps_wf(d.book, r);
    assert(after.journal.len() > d.journal.len() ==> after.journal.take(d.journal.len() as int)
        =~= d.journal);
}

/// A batch is the oldest of the journal, as many as are asked for and are
/// there; the rest stay in their order, and nothing else changes. No batch is
/// taken while one is in flight, nor once the writer has failed.
pub proof fn law_a_batch_is_the_oldest(d: Desk, batch: nat)
    ensures
        ({
            let after = batched(d, batch);
            &&& after.in_flight + after.journal == d.in_flight + d.journal
            &&& d.in_flight.len() > 0 || d.failed is Some ==> after == d
            &&& d.in_flight.len() == 0 && d.failed is None && d.journal.len() <= batch
                ==> after.in_flight.len() == d.journal.len()
            &&& d.in_flight.len() == 0 && d.failed is None && d.journal.len() > batch
                ==> after.in_flight.len() == batch
            &&& after.book == d.book && after.accepted == d.accepted && after.committed
                == d.committed && after.acked == d.acked && after.done == d.done && after.failed
                == d.failed
        }),
{
    assert(batched(d, batch).in_flight + batched(d, batch).journal =~= d.in_flight + d.journal);
}

/// A commit settles the batch in flight and that alone; a failure gives the
/// batch back and keeps the words of the failure.
pub proof fn law_a_batch_is_settled_or_given_back(d: Desk, why: Seq<char>)
    ensures
        committed(d).in_flight.len() == 0,
        committed(d).journal == d.journal,
        committed(d).committed == d.committed + d.in_flight.len(),
        committed(d).accepted == d.accepted && committed(d).book == d.book && committed(d).failed
            == d.failed && committed(d).limit == d.limit,
        abandoned(d, why).in_flight.len() == 0,
        abandoned(d, why).journal == d.in_flight + d.journal,
        abandoned(d, why).failed == Some("ledger writer failed: "@ + why),
        abandoned(d, why).committed == d.committed && abandoned(d, why).accepted == d.accepted
            && abandoned(d, why).book == d.book && abandoned(d, why).acked == d.acked
            && abandoned(d, why).done == d.done,
{
}

/// The highest tick of some transfers is reached by one of them and passed by
/// none.
pub proof fn law_the_highest_tick_is_reached(ps: Seq<PendingView>, i: int)
    ensures
        0 <= i < ps.len() ==> ps[i].tick <= highest(ps),
        ps.len() > 0 ==> exists|j: int|
            0 <= j < ps.len() && (#[trigger] ps[j]).tick == highest(ps),
        ps.len() == 0 ==> highest(ps) == 0,
    decreases ps.len(),
{
    if ps.len() > 0 {
        let front = ps.drop_last();
        law_the_highest_tick_is_reached(front, i);
        if 0 <= i < front.len() {
            assert(front[i] == ps[i]);
        }
        if ps.last().tick > highest(front) || front.len() == 0 {
            assert(ps[ps.len() - 1].tick == highest(ps));
        } else {
            let j = choose|j: int|
                0 <= j < front.len() && (#[trigger] front[j]).tick == highest(front);
            assert(ps[j] == front[j]);
        }
    }
}

/// What a flush answers: success exactly where the writer lives and all that
/// was accepted is committed. A failure answers with its words, and time that
/// has run out with its own; else the flush polls again.
pub proof fn law_what_a_flush_answers(
    l: &PgLedger,
    timed_out: bool,
    r: Option<Result<(), String>>,
)
    requires
        call_ensures(PgLedger::flush, (l, timed_out), r),
    ensures
        r is Some && r->0 is Ok <==> l@.failed is None && l@.committed >= l@.accepted,
        l@.failed is Some ==> r is Some && r->0 is Err && r->0->Err_0@ == l@.failed->0,
        l@.failed is None && l@.committed < l@.accepted && timed_out ==> r is Some && r->0 is Err
            && r->0->Err_0@ == "timed out waiting for the writer"@,
        r is None <==> l@.failed is None && l@.committed < l@.accepted && !timed_out,
{
}

/// The one failure that is a success is that of a row that is there already.
pub proof fn law_only_a_unique_violation_is_forgiven(code: Option<&str>, r: bool)
    requires
        call_ensures(already_written, (code,), r),
    ensures
        r <==> code is Some && code->0@ == "23505"@,
{
}

/// A ledger that is opened has nothing outstanding, and the watermark that was
/// committed, which is never below zero.
pub proof fn law_a_ledger_opens_on_what_was_committed(
    cfg: &PgConfig,
    rows: &[LedgerRow],
    acked: i64,
    res: Result<PgLedger, String>,
)
    requires
        2 * rows@.len() <= u64::MAX,
        call_ensures(PgLedger::open, (cfg, rows, acked), res),
    ensures
        res is Ok <==> replayed(Book::empty(), row_views(rows@), 0).1 is None,
        res is Ok ==> {
            let d = res->Ok_0@;
            &&& d.book == replayed(Book::empty(), row_views(rows@), 0).0
            &&& d.in_flight.len() == 0 && d.journal.len() == 0
            &&& d.accepted == 0 && d.committed == 0
            &&& acked >= 0 ==> d.acked == acked
            &&& acked < 0 ==> d.acked == 0
            &&& d.failed is None
            &&& d.limit == cfg.max_journal
        },
{
}

// ---------------------------------------------------------------------------
// What the calls do.
// ---------------------------------------------------------------------------

/// What a transfer does to a durable ledger. A key that was used is answered
/// with its receipt, whatever the writer does, and changes nothing. A new one is
/// refused while the writer is gone or behind, with the reason; else the rules
/// of the book decide, and what they accept waits to be written.
pub proof fn law_what_a_durable_transfer_does(
    req: TransferRequest,
    res: Result<StoredReceipt, LedgerError>,
)
    ensures
        forall|l: &mut PgLedger|
            l.wf() && l.has_space() && #[trigger] call_ensures(
                <PgLedger as LedgerStore>::transfer,
                (l, req),
                res,
            ) ==> {
                let (before, after) = (l@, (*final(l))@);
                let used = before.book.seen.contains_key(req@.idem_key);
                &&& used ==> res is Ok && res->Ok_0.receipt@.deduplicated && after == before
                    && res->Ok_0.receipt@.debit_seq == before.book.seen[req@.idem_key].debit_seq
                &&& !used && before.failed is Some ==> res is Err && res->Err_0@
                    == LedgerErrorView::WriterFailed(before.failed->0) && after == before
                &&& !used && before.failed is None && before.journal.len() >= before.limit
                    ==> res is Err && res->Err_0@ == (LedgerErrorView::WriterBehind {
                    depth: before.journal.len(),
                    limit: before.limit,
                }) && after == before
                &&& !used && before.failed is None && before.journal.len() < before.limit
                    && res is Ok ==> after.journal.len() == before.journal.len() + 1
                    && after.accepted == before.accepted + 1 && res->Ok_0.durability is Pending
                    && !res->Ok_0.receipt@.deduplicated && after.journal.last().idem_key
                    == req@.idem_key && after.journal.last().tick == req@.tick
                &&& !used && res is Err ==> after.book == before.book && after.journal
                    == before.journal
                &&& after.in_flight == before.in_flight && after.acked == before.acked
            },
{
    assert forall|l: &mut PgLedger|
        l.wf() && l.has_space() && #[trigger] call_ensures(
            <PgLedger as LedgerStore>::transfer,
            (l, req),
            res,
        ) && !l@.book.seen.contains_key(req@.idem_key) && l@.failed is None && l@.journal.len()
            < l@.limit && res is Ok implies res->Ok_0.durability is Pending by {
        let (before, after) = (l@, (*final(l))@);
        lemma_journalled(before, req@);
        ledger::law_a_transfer_is_written_as_asked(before.book, req@);
        assert(after == asked(before, req@));
    }
}

/// What handing out a batch does: it is what waited longest, a debit row and a
/// credit row for each transfer, and it stays outstanding.
pub proof fn law_what_handing_out_a_batch_does(batch: usize, out: Option<Batch>, k: int)
    ensures
        forall|l: &mut PgLedger|
            l.wf() && l@.in_flight.len() == 0 && #[trigger] call_ensures(
                PgLedger::next_batch,
                (l, batch),
                out,
            ) ==> {
                let (before, after) = (l@, (*final(l))@);
                &&& out is Some <==> before.failed is None && before.journal.len() > 0 && batch > 0
                &&& after.in_flight + after.journal == before.journal
                &&& after.in_flight.len() <= batch
                &&& out is Some && after.journal.len() > 0 ==> after.in_flight.len() == batch
                &&& out is Some ==> out->0.rows@.len() == 2 * after.in_flight.len()
                &&& out is Some && 0 <= k < after.in_flight.len() ==> out->0.rows@[2 * k]@
                    == row_of(before.journal[k].debit, "d"@) && out->0.rows@[2 * k + 1]@ == row_of(
                    before.journal[k].credit,
                    "c"@,
                )
                &&& after.book == before.book && after.committed == before.committed && after.acked
                    == before.acked
            },
{
    assert forall|l: &mut PgLedger|
        l.wf() && l@.in_flight.len() == 0 && #[trigger] call_ensures(
            PgLedger::next_batch,
            (l, batch),
            out,
        ) implies {
        let (before, after) = (l@, (*final(l))@);
        &&& after.in_flight + after.journal == before.journal
        &&& out is Some ==> out->0.rows@.len() == 2 * after.in_flight.len()
        &&& out is Some && 0 <= k < after.in_flight.len() ==> out->0.rows@[2 * k]@ == row_of(
            before.journal[k].debit,
            "d"@,
        ) && out->0.rows@[2 * k + 1]@ == row_of(before.journal[k].credit, "c"@)
    } by {
        let (before, after) = (l@, (*final(l))@);
        assert(after.in_flight + after.journal =~= before.journal);
        if out is Some {
            let views = row_views(out->0.rows@);
            assert(views.len() == out->0.rows@.len());
            if 0 <= k < after.in_flight.len() {
                assert(after.in_flight[k] == before.journal[k]);
                assert((2 * k) / 2 == k && (2 * k + 1) / 2 == k);
                assert(views[2 * k] == rows_of(after.in_flight)[2 * k]);
                assert(views[2 * k + 1] == rows_of(after.in_flight)[2 * k + 1]);
                assert(views[2 * k] == out->0.rows@[2 * k]@);
                assert(views[2 * k + 1] == out->0.rows@[2 * k + 1]@);
            }
        }
    }
}

/// What the end of a batch does: committed, its transfers are done and the
/// watermark does not fall; failed, they wait again in front of the others, and
/// no transfer is taken any more.
pub proof fn law_what_the_end_of_a_batch_does(why: &str)
    ensures
        forall|l: &mut PgLedger|
            l.wf() && #[trigger] call_ensures(PgLedger::batch_committed, (l,), ()) ==> {
                let (before, after) = (l@, (*final(l))@);
                &&& after.in_flight.len() == 0 && after.journal == before.journal
                &&& after.committed == before.committed + before.in_flight.len()
                &&& after.acked >= before.acked
                &&& after.book == before.book && after.failed == before.failed
            },
        forall|l: &mut PgLedger|
            l.wf() && #[trigger] call_ensures(PgLedger::batch_failed, (l, why), ()) ==> {
                let (before, after) = (l@, (*final(l))@);
                &&& after.in_flight.len() == 0
                &&& after.journal == before.in_flight + before.journal
                &&& after.failed == Some("ledger writer failed: "@ + why@)
                &&& after.committed == before.committed && after.acked == before.acked && after.book
                    == before.book
            },
{
}

/// Two columns name an account: the kind says which sort it is, and a kind that
/// is not known is the sink.
pub proof fn law_columns_name_an_account(kind: &str, id: &str, a: Account)
    requires
        call_ensures(account_from_parts, (kind, id), a),
    ensures
        kind@ == "player"@ ==> a is Player && a->Player_0@ == id@,
        kind@ == "system"@ ==> a is System && a->System_0@ == id@,
        kind@ == "mint"@ ==> a is Mint,
        kind@ != "player"@ && kind@ != "system"@ && kind@ != "mint"@ ==> a is Burn,
{
    reveal_strlit("player");
    reveal_strlit("system");
    reveal_strlit("mint");
    assert("player"@[0] == 'p' && "system"@[0] == 's' && "mint"@[0] == 'm');
}

/// What replaying rows does: the ledger is where the transfers of the debit rows
/// lead, in order. A row that is refused is named by its key and its number,
/// with the words of the refusal.
pub proof fn law_what_replaying_rows_does(rows: &[LedgerRow], res: Result<(), String>)
    ensures
        forall|l: &mut Ledger|
            l.wf() && l.book().entries.len() + 2 * rows@.len() <= u64::MAX
                && #[trigger] call_ensures(replay_into, (l, rows), res) ==> {
                let (book, stopped) = replayed(l.book(), row_views(rows@), 0);
                &&& (*final(l)).book() == book
                &&& res is Ok <==> stopped is None
                &&& stopped matches Some((i, e)) ==> res->Err_0@ == "replaying entry "@
                    + text::debug_quoted(rows@[i as int].idem_key@) + " (seq order "@
                    + text::decimal(i) + "): "@ + e.text()
            },
{
}

/// What a durable ledger tells: its watermark, what waits, and for each key that
/// was used the receipt, committed exactly where its rows are in the table.
pub proof fn law_what_a_durable_ledger_tells(
    l: &PgLedger,
    tick: u64,
    depth: usize,
    key: &IdemKey,
    receipt: Option<StoredReceipt>,
)
    requires
        l.wf(),
        call_ensures(<PgLedger as LedgerStore>::acked_tick, (l,), tick),
        call_ensures(PgLedger::journal_depth, (l,), depth),
        call_ensures(<PgLedger as LedgerStore>::receipt_for, (l, key), receipt),
    ensures
        tick == l@.acked,
        depth == l@.journal.len(),
        receipt is Some <==> l@.book.seen.contains_key(key@),
        receipt is Some ==> receipt->0.receipt@ == l@.book.seen[key@],
        receipt is Some ==> (receipt->0.durability is Committed
            <==> l@.book.seen[key@].debit_seq < l@.book.entries.len() - 2 * (l@.in_flight.len()
            + l@.journal.len())),
        receipt is Some && !(receipt->0.durability is Committed) ==> receipt->0.durability
            is Pending,
{
}

/// A database is written to as it is told, and otherwise as is usual: ten
/// thousand transfers may wait, and sixty-four are written at once.
pub proof fn law_the_usual_limits(url: &str, c: PgConfig)
    requires
        call_ensures(PgConfig::new, (url,), c),
    ensures
        c.url@ == url@ && c.max_journal == 10_000 && c.batch == 64,
{
}

/// The watermark covers all that is durable: with nothing left to write it is at
/// every tick that was ever committed; and a batch says in advance how far its
/// commit raises it.
pub proof fn law_the_watermark_covers_what_is_durable(d: Desk, batch: usize, out: Option<Batch>)
    ensures
        d.journal.len() == 0 ==> committed(d).acked >= d.done && committed(d).acked >= highest(
            d.in_flight,
        ),
        committed(d).done >= d.done && committed(d).done >= highest(d.in_flight),
        committed(d).done == d.done || committed(d).done == highest(d.in_flight),
        committed(d).acked <= d.acked || committed(d).acked <= committed(d).done,
        forall|l: &mut PgLedger|
            l.wf() && l@.in_flight.len() == 0 && out is Some && #[trigger] call_ensures(
                PgLedger::next_batch,
                (l, batch),
                out,
            ) ==> {
                let after = (*final(l))@;
                let done = committed(after);
                &&& out->0.acked_tick == short_of(done.done, after.journal) as i64
                &&& done.acked == after.acked || done.acked == short_of(done.done, after.journal)
            },
{
    lemma_short_of(later(d.done, highest(d.in_flight)), d.journal);
}

} // verus!
