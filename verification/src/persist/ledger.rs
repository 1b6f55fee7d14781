//! Append-only value tracking: the tier that makes duping detectable.
//!
//! # Why a balance is not a number
//!
//! A balance is *derived*: it is the sum of the entries that touch an
//! account. There is no setter, so there is no path that changes a balance
//! without leaving a record. The record is the value.
//!
//! # Every entry has a counterparty
//!
//! Value moves; it never appears. A mob dropping loot moves it from
//! [`Account::Mint`]; an item consumed on use moves it to
//! [`Account::Burn`]. Both sides of a transfer are written in one call,
//! summing to zero.
//!
//! # Retries cannot double-spend
//!
//! Every transfer carries an [`IdemKey`]. A retried packet matches an
//! existing key and returns the *original* receipt instead of moving value
//! twice.
//!
//! # Amounts are integers
//!
//! [`Amount`] is `i64` minor units, so sums are exact. Totals across the
//! whole ledger are taken in `i128` so an audit cannot itself overflow.
//!
//! # The model
//!
//! [`Book`] is what a ledger means: the entries, the receipts issued, and
//! the funds held. [`transfer_outcome`] and [`transfer_after`] say what a
//! request is answered and what it leaves behind; the laws at the end of
//! this file are stated over them.

use crate::sorted_map::{Key, SortedMap};
use crate::text;
use vstd::hash_map::StringHashMap;
use vstd::prelude::*;
use vstd::string::*;

verus! {

/// A quantity of an asset, in minor units.
pub type Amount = i64;

/// What is being moved: `"credits"`, `"item:ore_iron"`, and so on.
pub type Asset = String;

// ---------------------------------------------------------------------------
// Accounts and keys.
// ---------------------------------------------------------------------------

/// Who holds value.
///
/// The non-player variants are what make double-entry possible: value
/// arriving from a loot table still has a source, so the books balance.
#[derive(Debug, PartialEq, Eq, Hash, PartialOrd, Ord)]
pub enum Account {
    /// A player, keyed by a stable game-supplied id.
    Player(String),
    /// A shop, bank, guild vault, or any other in-world holder.
    System(String),
    /// Where value enters the economy: quest rewards, loot, admin grants.
    /// Its balance is never positive and equals everything ever created,
    /// less what was returned.
    Mint,
    /// Where value leaves: repair costs, consumed items, sinks.
    Burn,
}

/// An account, by the text that identifies it.
pub enum AccountView {
    Player(Seq<char>),
    System(Seq<char>),
    Mint,
    Burn,
}

impl View for Account {
    type V = AccountView;

    open spec fn view(&self) -> AccountView {
        match self {
            Account::Player(id) => AccountView::Player(id@),
            Account::System(id) => AccountView::System(id@),
            Account::Mint => AccountView::Mint,
            Account::Burn => AccountView::Burn,
        }
    }
}

impl AccountView {
    /// Players come first, then systems, then the mint and the sink.
    pub open spec fn rank(self) -> int {
        match self {
            AccountView::Player(_) => 0,
            AccountView::System(_) => 1,
            AccountView::Mint => 2,
            AccountView::Burn => 3,
        }
    }

    /// The id of a player or a system.
    pub open spec fn id(self) -> Seq<char> {
        match self {
            AccountView::Player(id) => id,
            AccountView::System(id) => id,
            _ => Seq::empty(),
        }
    }

    /// How the account reads in a message.
    pub open spec fn text(self) -> Seq<char> {
        match self {
            AccountView::Player(id) => "Player("@ + text::debug_quoted(id) + ")"@,
            AccountView::System(id) => "System("@ + text::debug_quoted(id) + ")"@,
            AccountView::Mint => "Mint"@,
            AccountView::Burn => "Burn"@,
        }
    }
}

impl Clone for Account {
    fn clone(&self) -> (r: Self)
        ensures
            r == *self,
    {
        match self {
            Account::Player(id) => Account::Player(id.clone()),
            Account::System(id) => Account::System(id.clone()),
            Account::Mint => Account::Mint,
            Account::Burn => Account::Burn,
        }
    }
}

impl Account {
    /// The account of the player `id`.
    pub fn player(id: &str) -> (a: Self)
        ensures
            a@ == AccountView::Player(id@),
    {
        Account::Player(id.to_owned())
    }

    /// The account of the in-world holder `id`.
    pub fn system(id: &str) -> (a: Self)
        ensures
            a@ == AccountView::System(id@),
    {
        Account::System(id.to_owned())
    }

    /// True for the two accounts that exist to balance the books rather
    /// than to hold anything.
    pub fn is_economy_boundary(&self) -> (r: bool)
        ensures
            r == (self@ == AccountView::Mint || self@ == AccountView::Burn),
    {
        matches!(self, Account::Mint | Account::Burn)
    }

    /// Whether two accounts are the same account.
    pub fn same(&self, other: &Account) -> (r: bool)
        ensures
            r == (self@ == other@),
    {
        match (self, other) {
            (Account::Player(a), Account::Player(b)) => *a == *b,
            (Account::System(a), Account::System(b)) => *a == *b,
            (Account::Mint, Account::Mint) => true,
            (Account::Burn, Account::Burn) => true,
            _ => false,
        }
    }

    fn rank(&self) -> (r: u8)
        ensures
            r == self@.rank(),
    {
        match self {
            Account::Player(_) => 0,
            Account::System(_) => 1,
            Account::Mint => 2,
            Account::Burn => 3,
        }
    }

    /// How the account reads in a message.
    pub fn describe(&self) -> (s: String)
        ensures
            s@ == self@.text(),
    {
        match self {
            Account::Player(id) => {
                let mut s = "Player(".to_owned();
                s.append(text::quoted(id.as_str()).as_str());
                s.append(")");
                s
            },
            Account::System(id) => {
                let mut s = "System(".to_owned();
                s.append(text::quoted(id.as_str()).as_str());
                s.append(")");
                s
            },
            Account::Mint => "Mint".to_owned(),
            Account::Burn => "Burn".to_owned(),
        }
    }
}

impl Key for Account {
    open spec fn precedes(a: AccountView, b: AccountView) -> bool {
        a.rank() < b.rank() || (a.rank() == b.rank() && text::text_before(a.id(), b.id()))
    }

    proof fn strict_total(a: AccountView, b: AccountView) {
        text::lemma_text_total(a.id(), b.id());
    }

    proof fn transitive(a: AccountView, b: AccountView, c: AccountView) {
        if a.rank() == b.rank() && b.rank() == c.rank() {
            text::lemma_text_transitive(a.id(), b.id(), c.id());
        }
    }

    fn before(&self, other: &Self) -> (r: bool) {
        let (a, b) = (self.rank(), other.rank());
        if a != b {
            a < b
        } else {
            match (self, other) {
                (Account::Player(x), Account::Player(y)) => text::str_before(x.as_str(), y.as_str()),
                (Account::System(x), Account::System(y)) => text::str_before(x.as_str(), y.as_str()),
                _ => {
                    proof {
                        text::lemma_text_total(self@.id(), other@.id());
                    }
                    false
                },
            }
        }
    }
}

/// Deduplication key for a transfer.
///
/// Built from the session and the client's own sequence number, so a
/// resent packet produces the same key.
#[derive(Debug, PartialEq, Eq, Hash, PartialOrd, Ord)]
pub struct IdemKey(String);

impl View for IdemKey {
    type V = Seq<char>;

    closed spec fn view(&self) -> Seq<char> {
        self.0@
    }
}

impl Clone for IdemKey {
    fn clone(&self) -> (r: Self)
        ensures
            r == *self,
    {
        IdemKey(self.0.clone())
    }
}

impl IdemKey {
    /// The normal construction: session identity plus the client's
    /// monotonic sequence number, plus what the action was.
    pub fn new(session: &str, client_seq: u64, action: &str) -> (k: Self)
        ensures
            k@ == session@ + ":"@ + text::decimal(client_seq as nat) + ":"@ + action@,
    {
        let mut s = session.to_owned();
        s.append(":");
        text::push_decimal(&mut s, client_seq as u128);
        s.append(":");
        s.append(action);
        IdemKey(s)
    }

    /// For server-originated movements that have no client packet behind
    /// them. The caller is responsible for uniqueness.
    pub fn server(unique: &str) -> (k: Self)
        ensures
            k@ == unique@,
    {
        IdemKey(unique.to_owned())
    }

    /// The key as text.
    pub fn as_str(&self) -> (s: &str)
        ensures
            s@ == self@,
    {
        self.0.as_str()
    }
}

// ---------------------------------------------------------------------------
// Entries, receipts, requests, errors.
// ---------------------------------------------------------------------------

/// One side of one movement. Append-only: entries are never updated or
/// deleted, and a correction is a new compensating entry.
#[derive(Debug, PartialEq, Eq)]
pub struct Entry {
    /// Position in the log, assigned on commit.
    pub seq: u64,
    pub idem_key: IdemKey,
    /// Simulation tick, for correlating with checkpoints.
    pub tick: u64,
    pub account: Account,
    /// The other side of this movement. Always present.
    pub counterparty: Account,
    pub asset: Asset,
    /// Signed: negative leaves `account`, positive arrives.
    pub delta: Amount,
    /// Why, from the game's own taxonomy.
    pub reason: String,
    /// Who acted: the player, a GM, or the system.
    pub actor: String,
}

#[verifier::ext_equal]
pub struct EntryView {
    pub seq: nat,
    pub idem_key: Seq<char>,
    pub tick: nat,
    pub account: AccountView,
    pub counterparty: AccountView,
    pub asset: Seq<char>,
    pub delta: int,
    pub reason: Seq<char>,
    pub actor: Seq<char>,
}

impl View for Entry {
    type V = EntryView;

    open spec fn view(&self) -> EntryView {
        EntryView {
            seq: self.seq as nat,
            idem_key: self.idem_key@,
            tick: self.tick as nat,
            account: self.account@,
            counterparty: self.counterparty@,
            asset: self.asset@,
            delta: self.delta as int,
            reason: self.reason@,
            actor: self.actor@,
        }
    }
}

impl Clone for Entry {
    fn clone(&self) -> (r: Self)
        ensures
            r == *self,
    {
        Entry {
            seq: self.seq,
            idem_key: self.idem_key.clone(),
            tick: self.tick,
            account: self.account.clone(),
            counterparty: self.counterparty.clone(),
            asset: self.asset.clone(),
            delta: self.delta,
            reason: self.reason.clone(),
            actor: self.actor.clone(),
        }
    }
}

/// A committed transfer: the two entries it wrote.
#[derive(Debug, PartialEq, Eq)]
pub struct Receipt {
    pub idem_key: IdemKey,
    pub debit_seq: u64,
    pub credit_seq: u64,
    pub amount: Amount,
    /// True when this returned an existing receipt rather than moving
    /// value again.
    pub deduplicated: bool,
}

#[verifier::ext_equal]
pub struct ReceiptView {
    pub idem_key: Seq<char>,
    pub debit_seq: nat,
    pub credit_seq: nat,
    pub amount: int,
    pub deduplicated: bool,
}

impl View for Receipt {
    type V = ReceiptView;

    open spec fn view(&self) -> ReceiptView {
        ReceiptView {
            idem_key: self.idem_key@,
            debit_seq: self.debit_seq as nat,
            credit_seq: self.credit_seq as nat,
            amount: self.amount as int,
            deduplicated: self.deduplicated,
        }
    }
}

impl Clone for Receipt {
    fn clone(&self) -> (r: Self)
        ensures
            r == *self,
    {
        Receipt {
            idem_key: self.idem_key.clone(),
            debit_seq: self.debit_seq,
            credit_seq: self.credit_seq,
            amount: self.amount,
            deduplicated: self.deduplicated,
        }
    }
}

/// What a transfer is asking for.
#[derive(Debug)]
pub struct TransferRequest {
    pub idem_key: IdemKey,
    pub from: Account,
    pub to: Account,
    pub asset: Asset,
    /// Must be positive. Direction is expressed by `from`/`to`, never by
    /// the sign, so a negative amount cannot quietly reverse a transfer.
    pub amount: Amount,
    pub reason: String,
    pub actor: String,
    pub tick: u64,
}

#[verifier::ext_equal]
pub struct RequestView {
    pub idem_key: Seq<char>,
    pub from: AccountView,
    pub to: AccountView,
    pub asset: Seq<char>,
    pub amount: int,
    pub reason: Seq<char>,
    pub actor: Seq<char>,
    pub tick: nat,
}

impl View for TransferRequest {
    type V = RequestView;

    open spec fn view(&self) -> RequestView {
        RequestView {
            idem_key: self.idem_key@,
            from: self.from@,
            to: self.to@,
            asset: self.asset@,
            amount: self.amount as int,
            reason: self.reason@,
            actor: self.actor@,
            tick: self.tick as nat,
        }
    }
}

impl Clone for TransferRequest {
    fn clone(&self) -> (r: Self)
        ensures
            r == *self,
    {
        TransferRequest {
            idem_key: self.idem_key.clone(),
            from: self.from.clone(),
            to: self.to.clone(),
            asset: self.asset.clone(),
            amount: self.amount,
            reason: self.reason.clone(),
            actor: self.actor.clone(),
            tick: self.tick,
        }
    }
}

/// Why a transfer was refused.
#[derive(Debug, PartialEq, Eq)]
pub enum LedgerError {
    /// Amount was zero or negative. Direction belongs in `from`/`to`.
    NonPositiveAmount(Amount),
    /// The account cannot cover it, counting funds already reserved by
    /// in-flight transfers.
    InsufficientFunds { account: Account, asset: Asset, available: Amount, needed: Amount },
    /// `from` and `to` are the same account: a no-op that would still
    /// write two entries and muddy an audit.
    SelfTransfer(Account),
    /// The arithmetic would overflow `i64`.
    Overflow,
    /// A reservation was released that was never taken.
    UnknownReservation,
    /// The durable writer has died, with the reason it gave.
    WriterFailed(String),
    /// The durable writer is too far behind to accept more.
    WriterBehind { depth: usize, limit: usize },
}

impl Clone for LedgerError {
    fn clone(&self) -> (r: Self)
        ensures
            r == *self,
    {
        match self {
            LedgerError::NonPositiveAmount(a) => LedgerError::NonPositiveAmount(*a),
            LedgerError::InsufficientFunds { account, asset, available, needed } => {
                LedgerError::InsufficientFunds {
                    account: account.clone(),
                    asset: asset.clone(),
                    available: *available,
                    needed: *needed,
                }
            },
            LedgerError::SelfTransfer(a) => LedgerError::SelfTransfer(a.clone()),
            LedgerError::Overflow => LedgerError::Overflow,
            LedgerError::UnknownReservation => LedgerError::UnknownReservation,
            LedgerError::WriterFailed(why) => LedgerError::WriterFailed(why.clone()),
            LedgerError::WriterBehind { depth, limit } => LedgerError::WriterBehind {
                depth: *depth,
                limit: *limit,
            },
        }
    }
}

pub enum LedgerErrorView {
    NonPositiveAmount(int),
    InsufficientFunds { account: AccountView, asset: Seq<char>, available: int, needed: int },
    SelfTransfer(AccountView),
    Overflow,
    UnknownReservation,
    WriterFailed(Seq<char>),
    WriterBehind { depth: nat, limit: nat },
}

impl View for LedgerError {
    type V = LedgerErrorView;

    open spec fn view(&self) -> LedgerErrorView {
        match self {
            LedgerError::NonPositiveAmount(a) => LedgerErrorView::NonPositiveAmount(*a as int),
            LedgerError::InsufficientFunds { account, asset, available, needed } => {
                LedgerErrorView::InsufficientFunds {
                    account: account@,
                    asset: asset@,
                    available: *available as int,
                    needed: *needed as int,
                }
            },
            LedgerError::SelfTransfer(a) => LedgerErrorView::SelfTransfer(a@),
            LedgerError::Overflow => LedgerErrorView::Overflow,
            LedgerError::UnknownReservation => LedgerErrorView::UnknownReservation,
            LedgerError::WriterFailed(why) => LedgerErrorView::WriterFailed(why@),
            LedgerError::WriterBehind { depth, limit } => LedgerErrorView::WriterBehind {
                depth: *depth as nat,
                limit: *limit as nat,
            },
        }
    }
}

impl LedgerErrorView {
    /// The sentence shown for each error.
    pub open spec fn text(self) -> Seq<char> {
        match self {
            LedgerErrorView::NonPositiveAmount(a) => "transfer amount must be positive, got "@
                + text::signed_decimal(a),
            LedgerErrorView::InsufficientFunds { account, asset, available, needed } => {
                account.text() + " has "@ + text::signed_decimal(available) + " "@ + asset + ", needs "@
                    + text::signed_decimal(needed)
            },
            LedgerErrorView::SelfTransfer(a) => "transfer from "@ + a.text() + " to itself"@,
            LedgerErrorView::Overflow => "transfer would overflow the amount type"@,
            LedgerErrorView::UnknownReservation => "released a reservation that was never taken"@,
            LedgerErrorView::WriterFailed(why) => "the ledger writer has failed: "@ + why,
            LedgerErrorView::WriterBehind { depth, limit } => "the ledger writer is behind: "@
                + text::decimal(depth) + " transfers queued, limit "@ + text::decimal(limit),
        }
    }
}

impl LedgerError {
    /// A human-readable description of the error.
    pub fn message(&self) -> (s: String)
        ensures
            s@ == self@.text(),
    {
        match self {
            LedgerError::NonPositiveAmount(a) => {
                let mut s = "transfer amount must be positive, got ".to_owned();
                text::push_signed_decimal(&mut s, *a);
                s
            },
            LedgerError::InsufficientFunds { account, asset, available, needed } => {
                let mut s = account.describe();
                s.append(" has ");
                text::push_signed_decimal(&mut s, *available);
                s.append(" ");
                s.append(asset.as_str());
                s.append(", needs ");
                text::push_signed_decimal(&mut s, *needed);
                s
            },
            LedgerError::SelfTransfer(a) => {
                let mut s = "transfer from ".to_owned();
                s.append(a.describe().as_str());
                s.append(" to itself");
                s
            },
            LedgerError::Overflow => "transfer would overflow the amount type".to_owned(),
            LedgerError::UnknownReservation => {
                "released a reservation that was never taken".to_owned()
            },
            LedgerError::WriterFailed(why) => {
                let mut s = "the ledger writer has failed: ".to_owned();
                s.append(why.as_str());
                s
            },
            LedgerError::WriterBehind { depth, limit } => {
                let mut s = "the ledger writer is behind: ".to_owned();
                text::push_decimal(&mut s, *depth as u128);
                s.append(" transfers queued, limit ");
                text::push_decimal(&mut s, *limit as u128);
                s
            },
        }
    }
}

/// A discrepancy found by reconciliation.
#[derive(Debug, PartialEq, Eq)]
pub struct Discrepancy {
    pub asset: Asset,
    /// How far from zero the books are. Non-zero means value was created
    /// or destroyed outside this API.
    pub imbalance: i128,
}

impl Clone for Discrepancy {
    fn clone(&self) -> (r: Self)
        ensures
            r == *self,
    {
        Discrepancy { asset: self.asset.clone(), imbalance: self.imbalance }
    }
}

/// Handle to an in-flight reservation, released when the transfer
/// commits or is abandoned.
#[derive(Copy, Clone, Debug, PartialEq, Eq, Hash, Structural)]
pub struct ReservationId(pub u64);

// ---------------------------------------------------------------------------
// The model.
// ---------------------------------------------------------------------------

/// Funds held against an in-flight transfer.
#[verifier::ext_equal]
pub struct Hold {
    pub id: nat,
    pub account: AccountView,
    pub asset: Seq<char>,
    pub amount: int,
}

/// What a ledger means.
#[verifier::ext_equal]
pub struct Book {
    /// The log, oldest first.
    pub entries: Seq<EntryView>,
    /// Receipts of committed transfers, by their key.
    pub seen: Map<Seq<char>, ReceiptView>,
    /// Funds held, oldest first.
    pub holds: Seq<Hold>,
    /// The id of the next reservation.
    pub next_hold: nat,
}

/// What the entries move in or out of one account, for one asset.
pub open spec fn entry_sum(es: Seq<EntryView>, a: AccountView, s: Seq<char>) -> int
    decreases es.len(),
{
    if es.len() == 0 {
        0
    } else {
        entry_sum(es.drop_last(), a, s) + if es.last().account == a && es.last().asset == s {
            es.last().delta
        } else {
            0
        }
    }
}

/// What the entries of one asset sum to, over all accounts.
pub open spec fn asset_sum(es: Seq<EntryView>, s: Seq<char>) -> int
    decreases es.len(),
{
    if es.len() == 0 {
        0
    } else {
        asset_sum(es.drop_last(), s) + if es.last().asset == s {
            es.last().delta
        } else {
            0
        }
    }
}

/// These are the assets of a log that do not sum to zero, in order of their
/// names, each with its sum.
pub open spec fn lists_imbalances(es: Seq<EntryView>, out: Seq<Discrepancy>) -> bool {
    &&& forall|i: int, j: int|
        0 <= i < j < out.len() ==> text::text_before(
            (#[trigger] out[i]).asset@,
            (#[trigger] out[j]).asset@,
        )
    &&& forall|i: int|
        0 <= i < out.len() ==> (#[trigger] out[i]).imbalance == asset_sum(es, out[i].asset@)
            && out[i].imbalance != 0
    &&& forall|s: Seq<char>|
        #[trigger] asset_sum(es, s) != 0 ==> exists|i: int|
            0 <= i < out.len() && (#[trigger] out[i]).asset@ == s
}

/// What is held of one asset of one account.
pub open spec fn held_sum(hs: Seq<Hold>, a: AccountView, s: Seq<char>) -> int
    decreases hs.len(),
{
    if hs.len() == 0 {
        0
    } else {
        held_sum(hs.drop_last(), a, s) + if hs.last().account == a && hs.last().asset == s {
            hs.last().amount
        } else {
            0
        }
    }
}

/// The holds without the one numbered `id`.
pub open spec fn without(hs: Seq<Hold>, id: nat) -> Seq<Hold>
    decreases hs.len(),
{
    if hs.len() == 0 {
        hs
    } else if hs.last().id == id {
        without(hs.drop_last(), id)
    } else {
        without(hs.drop_last(), id).push(hs.last())
    }
}

/// Whether a hold numbered `id` is in place.
pub open spec fn is_held(hs: Seq<Hold>, id: nat) -> bool {
    exists|i: int| 0 <= i < hs.len() && (#[trigger] hs[i]).id == id
}

impl Book {
    /// An empty book.
    pub open spec fn empty() -> Book {
        Book {
            entries: Seq::empty(),
            seen: Map::empty(),
            holds: Seq::empty(),
            next_hold: 0,
        }
    }

    /// An account's balance: the sum of the entries that touch it.
    pub open spec fn balance(self, a: AccountView, s: Seq<char>) -> int {
        entry_sum(self.entries, a, s)
    }

    /// The balance less what is held.
    pub open spec fn available(self, a: AccountView, s: Seq<char>) -> int {
        self.balance(a, s) - held_sum(self.holds, a, s)
    }

    /// The entries `2k` and `2k + 1` are the two sides of one transfer, and
    /// its receipt is on file.
    pub open spec fn pair_at(self, k: int) -> bool {
        let d = self.entries[2 * k];
        let c = self.entries[2 * k + 1];
        &&& d.seq == 2 * k
        &&& c == (EntryView {
            seq: (2 * k + 1) as nat,
            account: d.counterparty,
            counterparty: d.account,
            delta: -d.delta,
            ..d
        })
        &&& d.account != d.counterparty
        &&& d.delta < 0
        &&& self.seen.contains_key(d.idem_key)
        &&& self.seen[d.idem_key] == (ReceiptView {
            idem_key: d.idem_key,
            debit_seq: d.seq,
            credit_seq: c.seq,
            amount: c.delta,
            deduplicated: false,
        })
    }

    /// What every ledger keeps:
    /// - the log is made of whole transfers, numbered from zero, each with
    ///   its receipt, and there is no other receipt;
    /// - no account but the mint holds less than what is held against it,
    ///   and nothing is held against the mint;
    /// - at no point of the log does a balance leave the range of an amount,
    ///   and at none is an account other than the mint overdrawn.
    pub open spec fn wf(self) -> bool {
        &&& self.entries.len() % 2 == 0
        &&& forall|k: int| 0 <= 2 * k < self.entries.len() ==> #[trigger] self.pair_at(k)
        &&& forall|key: Seq<char>| #[trigger]
            self.seen.contains_key(key) ==> {
                &&& self.seen[key].debit_seq < self.entries.len()
                &&& self.seen[key].debit_seq % 2 == 0
                &&& self.entries[self.seen[key].debit_seq as int].idem_key == key
            }
        &&& forall|a: AccountView, s: Seq<char>|
            a != AccountView::Mint ==> #[trigger] held_sum(self.holds, a, s) <= entry_sum(
                self.entries,
                a,
                s,
            )
        &&& forall|i: int|
            0 <= i < self.holds.len() ==> {
                &&& (#[trigger] self.holds[i]).amount > 0
                &&& self.holds[i].account != AccountView::Mint
                &&& self.holds[i].id < self.next_hold
            }
        &&& forall|i: int, j: int|
            0 <= i < j < self.holds.len() ==> (#[trigger] self.holds[i]).id != (
            #[trigger] self.holds[j]).id
        &&& sums_fit(self.entries)
        &&& never_overdrawn(self.entries)
    }
}

/// At no point of the log has an account other than the mint paid out more
/// than it had.
pub open spec fn never_overdrawn(es: Seq<EntryView>) -> bool {
    forall|n: int, a: AccountView, s: Seq<char>|
        0 <= n <= es.len() && a != AccountView::Mint ==> 0 <= #[trigger] entry_sum(
            es.take(n),
            a,
            s,
        )
}

/// At no point of the log does an account's sum leave the range of an amount.
pub open spec fn sums_fit(es: Seq<EntryView>) -> bool {
    forall|n: int, a: AccountView, s: Seq<char>|
        0 <= n <= es.len() ==> i64::MIN <= #[trigger] entry_sum(es.take(n), a, s) <= i64::MAX
}

/// What a request is answered.
///
/// Idempotency comes first: a retry is not even validated against current
/// balances, because the money may since have been spent and the original
/// transfer already happened. The mint has no balance to check.
pub open spec fn transfer_outcome(b: Book, r: RequestView) -> Result<ReceiptView, LedgerErrorView> {
    if b.seen.contains_key(r.idem_key) {
        Ok(ReceiptView { deduplicated: true, ..b.seen[r.idem_key] })
    } else if r.amount <= 0 {
        Err(LedgerErrorView::NonPositiveAmount(r.amount))
    } else if r.from == r.to {
        Err(LedgerErrorView::SelfTransfer(r.from))
    } else if r.from != AccountView::Mint && b.available(r.from, r.asset) < r.amount {
        Err(
            LedgerErrorView::InsufficientFunds {
                account: r.from,
                asset: r.asset,
                available: b.available(r.from, r.asset),
                needed: r.amount,
            },
        )
    } else if b.balance(r.from, r.asset) - r.amount < i64::MIN || b.balance(r.to, r.asset)
        + r.amount > i64::MAX {
        Err(LedgerErrorView::Overflow)
    } else {
        Ok(
            ReceiptView {
                idem_key: r.idem_key,
                debit_seq: b.entries.len(),
                credit_seq: b.entries.len() + 1,
                amount: r.amount,
                deduplicated: false,
            },
        )
    }
}

/// The entry that takes the amount out of `from`.
pub open spec fn debit_of(b: Book, r: RequestView) -> EntryView {
    EntryView {
        seq: b.entries.len(),
        idem_key: r.idem_key,
        tick: r.tick,
        account: r.from,
        counterparty: r.to,
        asset: r.asset,
        delta: -r.amount,
        reason: r.reason,
        actor: r.actor,
    }
}

/// The entry that brings the amount into `to`.
pub open spec fn credit_of(b: Book, r: RequestView) -> EntryView {
    EntryView {
        seq: b.entries.len() + 1,
        account: r.to,
        counterparty: r.from,
        delta: r.amount,
        ..debit_of(b, r)
    }
}

/// Whether a request moves value: it is accepted, and is not a retry.
pub open spec fn moves_value(b: Book, r: RequestView) -> bool {
    !b.seen.contains_key(r.idem_key) && transfer_outcome(b, r) is Ok
}

/// What a request leaves behind: both entries and the receipt, or nothing.
pub open spec fn transfer_after(b: Book, r: RequestView) -> Book {
    if moves_value(b, r) {
        Book {
            entries: b.entries.push(debit_of(b, r)).push(credit_of(b, r)),
            seen: b.seen.insert(r.idem_key, transfer_outcome(b, r)->Ok_0),
            ..b
        }
    } else {
        b
    }
}

/// What asking to hold funds is answered.
pub open spec fn reserve_outcome(b: Book, a: AccountView, s: Seq<char>, amount: int) -> Result<
    nat,
    LedgerErrorView,
> {
    if amount <= 0 {
        Err(LedgerErrorView::NonPositiveAmount(amount))
    } else if b.available(a, s) < amount {
        Err(
            LedgerErrorView::InsufficientFunds {
                account: a,
                asset: s,
                available: b.available(a, s),
                needed: amount,
            },
        )
    } else {
        Ok(b.next_hold)
    }
}

/// What asking to hold funds leaves behind.
pub open spec fn reserve_after(b: Book, a: AccountView, s: Seq<char>, amount: int) -> Book {
    if reserve_outcome(b, a, s, amount) is Ok {
        Book {
            holds: b.holds.push(Hold { id: b.next_hold, account: a, asset: s, amount }),
            next_hold: b.next_hold + 1,
            ..b
        }
    } else {
        b
    }
}

// ---------------------------------------------------------------------------
// Lemmas on sums.
// ---------------------------------------------------------------------------

proof fn lemma_entry_sum_push(es: Seq<EntryView>, e: EntryView, a: AccountView, s: Seq<char>)
    ensures
        entry_sum(es.push(e), a, s) == entry_sum(es, a, s) + if e.account == a && e.asset == s {
            e.delta
        } else {
            0
        },
{
    assert(es.push(e).drop_last() =~= es);
}

proof fn lemma_held_sum_push(hs: Seq<Hold>, h: Hold, a: AccountView, s: Seq<char>)
    ensures
        held_sum(hs.push(h), a, s) == held_sum(hs, a, s) + if h.account == a && h.asset == s {
            h.amount
        } else {
            0
        },
{
    assert(hs.push(h).drop_last() =~= hs);
}

proof fn lemma_held_sum_nonneg(hs: Seq<Hold>, a: AccountView, s: Seq<char>)
    requires
        forall|i: int| 0 <= i < hs.len() ==> (#[trigger] hs[i]).amount > 0,
    ensures
        held_sum(hs, a, s) >= 0,
    decreases hs.len(),
{
    if hs.len() > 0 {
        assert forall|i: int| 0 <= i < hs.drop_last().len() implies (#[trigger] hs.drop_last()[i]).amount
            > 0 by {
        }
        lemma_held_sum_nonneg(hs.drop_last(), a, s);
    }
}

proof fn lemma_held_sum_none(hs: Seq<Hold>, a: AccountView, s: Seq<char>)
    requires
        forall|i: int| 0 <= i < hs.len() ==> (#[trigger] hs[i]).account != a,
    ensures
        held_sum(hs, a, s) == 0,
    decreases hs.len(),
{
    if hs.len() > 0 {
        assert forall|i: int| 0 <= i < hs.drop_last().len() implies (#[trigger] hs.drop_last()[i]).account
            != a by {
        }
        lemma_held_sum_none(hs.drop_last(), a, s);
    }
}

/// A part of the holds never sums to more than the whole.
proof fn lemma_held_sum_prefix(hs: Seq<Hold>, n: int, a: AccountView, s: Seq<char>)
    requires
        0 <= n <= hs.len(),
        forall|i: int| 0 <= i < hs.len() ==> (#[trigger] hs[i]).amount > 0,
    ensures
        0 <= held_sum(hs.take(n), a, s) <= held_sum(hs, a, s),
    decreases hs.len(),
{
    if n == hs.len() {
        assert(hs.take(n) =~= hs);
        lemma_held_sum_nonneg(hs, a, s);
    } else {
        let front = hs.drop_last();
        assert forall|i: int| 0 <= i < front.len() implies (#[trigger] front[i]).amount > 0 by {
        }
        lemma_held_sum_prefix(front, n, a, s);
        assert(front.take(n) =~= hs.take(n));
    }
}

/// Removing one hold lowers what is held by its amount.
proof fn lemma_without(hs: Seq<Hold>, p: int, a: AccountView, s: Seq<char>)
    requires
        0 <= p < hs.len(),
        forall|i: int, j: int|
            0 <= i < j < hs.len() ==> (#[trigger] hs[i]).id != (#[trigger] hs[j]).id,
    ensures
        without(hs, hs[p].id) == hs.remove(p),
        held_sum(hs.remove(p), a, s) == held_sum(hs, a, s) - if hs[p].account == a && hs[p].asset
            == s {
            hs[p].amount
        } else {
            0
        },
    decreases hs.len(),
{
    let id = hs[p].id;
    let front = hs.drop_last();
    if p == hs.len() - 1 {
        assert forall|i: int| 0 <= i < front.len() implies (#[trigger] front[i]).id != id by {
        }
        lemma_without_absent(front, id);
    } else {
        assert forall|i: int, j: int| 0 <= i < j < front.len() implies (#[trigger] front[i]).id != (
        #[trigger] front[j]).id by {
        }
        lemma_without(front, p, a, s);
        assert(hs.remove(p) =~= front.remove(p).push(hs.last()));
        lemma_held_sum_push(front.remove(p), hs.last(), a, s);
    }
}

proof fn lemma_without_absent(hs: Seq<Hold>, id: nat)
    requires
        forall|i: int| 0 <= i < hs.len() ==> (#[trigger] hs[i]).id != id,
    ensures
        without(hs, id) == hs,
    decreases hs.len(),
{
    if hs.len() > 0 {
        let front = hs.drop_last();
        assert forall|i: int| 0 <= i < front.len() implies (#[trigger] front[i]).id != id by {
        }
        lemma_without_absent(front, id);
    }
}

/// Whole transfers sum to zero.
proof fn lemma_pairs_sum_to_zero(b: Book, n: int, s: Seq<char>)
    requires
        0 <= n <= b.entries.len(),
        n % 2 == 0,
        forall|k: int| 0 <= 2 * k < b.entries.len() ==> #[trigger] b.pair_at(k),
        b.entries.len() % 2 == 0,
    ensures
        asset_sum(b.entries.take(n), s) == 0,
    decreases n,
{
    if n > 0 {
        let k = n / 2 - 1;
        assert(b.pair_at(k));
        let t = b.entries.take(n);
        assert(t.drop_last().drop_last() =~= b.entries.take(n - 2));
        lemma_pairs_sum_to_zero(b, n - 2, s);
        reveal_with_fuel(asset_sum, 3);
    }
}

/// A sum of `n` amounts fits an `i128`.
proof fn lemma_asset_sum_bound(es: Seq<EntryView>, s: Seq<char>)
    ensures
        (forall|j: int| 0 <= j < es.len() ==> i64::MIN <= (#[trigger] es[j]).delta <= i64::MAX)
            ==> -(es.len() * 0x8000_0000_0000_0000) <= asset_sum(es, s) <= es.len()
            * 0x8000_0000_0000_0000,
    decreases es.len(),
{
    if es.len() > 0 && (forall|j: int|
        0 <= j < es.len() ==> i64::MIN <= (#[trigger] es[j]).delta <= i64::MAX) {
        let front = es.drop_last();
        assert forall|j: int| 0 <= j < front.len() implies i64::MIN <= (#[trigger] front[j]).delta
            <= i64::MAX by {
        }
        lemma_asset_sum_bound(front, s);
    }
}

/// What the entries of a set of accounts sum to.
spec fn group_sum(es: Seq<EntryView>, group: Set<AccountView>, s: Seq<char>) -> int
    decreases es.len(),
{
    if es.len() == 0 {
        0
    } else {
        group_sum(es.drop_last(), group, s) + if group.contains(es.last().account)
            && es.last().asset == s {
            es.last().delta
        } else {
            0
        }
    }
}

proof fn lemma_group_insert(es: Seq<EntryView>, group: Set<AccountView>, a: AccountView, s: Seq<char>)
    requires
        !group.contains(a),
    ensures
        group_sum(es, group.insert(a), s) == group_sum(es, group, s) + entry_sum(es, a, s),
    decreases es.len(),
{
    if es.len() > 0 {
        lemma_group_insert(es.drop_last(), group, a, s);
    }
}

proof fn lemma_group_nonneg(es: Seq<EntryView>, group: Set<AccountView>, s: Seq<char>)
    requires
        group.finite(),
        forall|a: AccountView| group.contains(a) ==> entry_sum(es, a, s) >= 0,
    ensures
        group_sum(es, group, s) >= 0,
    decreases group.len(),
{
    if group.len() == 0 {
        lemma_group_empty(es, group, s);
    } else {
        let a = group.choose();
        let rest = group.remove(a);
        lemma_group_insert(es, rest, a, s);
        lemma_group_nonneg(es, rest, s);
    }
}

proof fn lemma_group_empty(es: Seq<EntryView>, group: Set<AccountView>, s: Seq<char>)
    requires
        group.finite(),
        group.len() == 0,
    ensures
        group_sum(es, group, s) == 0,
    decreases es.len(),
{
    if es.len() > 0 {
        lemma_group_empty(es.drop_last(), group, s);
    }
}

/// The accounts that the entries touch.
spec fn touched(es: Seq<EntryView>) -> Set<AccountView>
    decreases es.len(),
{
    if es.len() == 0 {
        Set::empty()
    } else {
        touched(es.drop_last()).insert(es.last().account)
    }
}

proof fn lemma_touched(es: Seq<EntryView>, extra: Set<AccountView>, s: Seq<char>)
    ensures
        touched(es).finite(),
        touched(es).subset_of(extra) ==> group_sum(es, extra, s) == asset_sum(es, s),
    decreases es.len(),
{
    if es.len() > 0 {
        lemma_touched(es.drop_last(), extra, s);
    }
}

/// Where the books balance and nobody else is overdrawn, the mint has paid
/// out at least what it took in.
proof fn lemma_mint_not_positive(es: Seq<EntryView>, s: Seq<char>)
    requires
        asset_sum(es, s) == 0,
        forall|a: AccountView| a != AccountView::Mint ==> #[trigger] entry_sum(es, a, s) >= 0,
    ensures
        entry_sum(es, AccountView::Mint, s) <= 0,
{
    let others = touched(es).remove(AccountView::Mint);
    let all = others.insert(AccountView::Mint);
    lemma_touched(es, all, s);
    lemma_group_insert(es, others, AccountView::Mint, s);
    lemma_group_nonneg(es, others, s);
}

// ---------------------------------------------------------------------------
// The ledger.
// ---------------------------------------------------------------------------

/// Funds committed to an in-flight transfer but not yet written.
struct Reservation {
    id: u64,
    account: Account,
    asset: Asset,
    amount: Amount,
}

impl View for Reservation {
    type V = Hold;

    closed spec fn view(&self) -> Hold {
        Hold {
            id: self.id as nat,
            account: self.account@,
            asset: self.asset@,
            amount: self.amount as int,
        }
    }
}

/// The in-memory ledger.
pub struct Ledger {
    pub entries: Vec<Entry>,
    /// Derived balances, kept incrementally so a read is a lookup rather
    /// than a scan. `audit_balances_match_entries` reports any drift from
    /// the log.
    pub balances: SortedMap<(Account, Asset), Amount>,
    /// Committed transfers, so a retry returns the original receipt.
    seen: StringHashMap<Receipt>,
    /// Funds committed to in-flight transfers but not yet written.
    reservations: Vec<Reservation>,
    next_seq: u64,
    next_reservation: u64,
}

/// The log, by what its entries say.
pub open spec fn entry_views(entries: Seq<Entry>) -> Seq<EntryView> {
    entries.map_values(|e: Entry| e@)
}

/// Whether an entry touches an account.
pub open spec fn touches(a: AccountView) -> spec_fn(EntryView) -> bool {
    |e: EntryView| e.account == a
}

/// Whether an entry, as it is stored, touches an account.
pub open spec fn touches_stored(a: AccountView) -> spec_fn(Entry) -> bool {
    |e: Entry| e.account@ == a
}

/// Picking out the entries of an account and looking at what they say are
/// the same in either order.
pub proof fn lemma_history_views(entries: Seq<Entry>, a: AccountView)
    ensures
        entry_views(entries.filter(touches_stored(a))) == entry_views(entries).filter(touches(a)),
    decreases entries.len(),
{
    reveal(Seq::filter);
    let views = entry_views(entries);
    if entries.len() > 0 {
        let front = entries.drop_last();
        lemma_history_views(front, a);
        assert(views.drop_last() =~= entry_views(front));
        if entries.last().account@ == a {
            assert(entry_views(front.filter(touches_stored(a)).push(entries.last()))
                =~= entry_views(front.filter(touches_stored(a))).push(entries.last()@));
        }
    }
}

impl Ledger {
    /// What the ledger means.
    pub closed spec fn book(&self) -> Book {
        Book {
            entries: entry_views(self.entries@),
            seen: self.seen@.map_values(|r: Receipt| r@),
            holds: self.reservations@.map_values(|r: Reservation| r@),
            next_hold: self.next_reservation as nat,
        }
    }

    /// What the cache says an account's balance is.
    pub closed spec fn cached(&self, a: AccountView, s: Seq<char>) -> int {
        if self.balances@.contains_key((a, s)) {
            self.balances@[(a, s)] as int
        } else {
            0
        }
    }

    /// The cache is ordered, so that lookups find what was stored.
    pub closed spec fn cache_wf(&self) -> bool {
        self.balances.wf()
    }

    /// The log itself.
    pub closed spec fn log(&self) -> Seq<Entry> {
        self.entries@
    }

    /// The book is whole and the cache agrees with the log.
    pub closed spec fn wf(&self) -> bool {
        &&& self.book().wf()
        &&& self.balances.wf()
        &&& forall|a: AccountView, s: Seq<char>| #[trigger]
            self.cached(a, s) == entry_sum(self.book().entries, a, s)
        &&& self.next_seq == self.entries@.len()
    }

    /// Sequence numbers for one more transfer are left.
    pub open spec fn has_room(&self) -> bool {
        self.book().entries.len() + 2 <= u64::MAX
    }

    /// What a well-formed ledger gives: a whole book, and a cache that says
    /// what the book says.
    pub proof fn lemma_wf(&self)
        requires
            self.wf(),
        ensures
            self.book().wf(),
            self.cache_wf(),
            self.book().entries == entry_views(self.log()),
            forall|a: AccountView, s: Seq<char>| #[trigger]
                self.cached(a, s) == self.book().balance(a, s),
    {
    }

    /// The book lists what the log says.
    pub proof fn lemma_book_entries(&self)
        ensures
            self.book().entries == entry_views(self.log()),
    {
    }

    /// An empty ledger.
    pub fn new() -> (l: Self)
        ensures
            l.wf(),
            l.book() == Book::empty(),
    {
        let l = Ledger {
            entries: Vec::new(),
            balances: SortedMap::new(),
            seen: StringHashMap::new(),
            reservations: Vec::new(),
            next_seq: 0,
            next_reservation: 0,
        };
        l
    }

    /// Move `amount` of `asset` from one account to another.
    ///
    /// Writes two entries — a debit and a credit — or none at all. There
    /// is no partial state: the checks all happen before anything is
    /// appended.
    ///
    /// A repeated [`IdemKey`] returns the original receipt with
    /// `deduplicated: true` and moves nothing.
    pub fn transfer(&mut self, req: TransferRequest) -> (res: Result<Receipt, LedgerError>)
        requires
            old(self).wf(),
            old(self).has_room(),
        ensures
            final(self).wf(),
            final(self).book() == transfer_after(old(self).book(), req@),
            match res {
                Ok(receipt) => transfer_outcome(old(self).book(), req@) == Ok::<
                    ReceiptView,
                    LedgerErrorView,
                >(receipt@),
                Err(e) => transfer_outcome(old(self).book(), req@) == Err::<
                    ReceiptView,
                    LedgerErrorView,
                >(e@),
            },
    {
        let ghost b = self.book();
        let ghost r = req@;
        if let Some(prior) = self.seen.get(req.idem_key.as_str()) {
            let mut receipt = prior.clone();
            receipt.deduplicated = true;
            return Ok(receipt);
        }
        if req.amount <= 0 {
            return Err(LedgerError::NonPositiveAmount(req.amount));
        }
        if req.from.same(&req.to) {
            return Err(LedgerError::SelfTransfer(req.from));
        }
        // The mint has no balance to check: it is where value comes from.
        // Everything else must cover the amount, reservations included.
        if !matches!(req.from, Account::Mint) {
            let available: Amount = self.available(&req.from, req.asset.as_str());
            if available < req.amount {
                return Err(
                    LedgerError::InsufficientFunds {
                        account: req.from.clone(),
                        asset: req.asset.clone(),
                        available,
                        needed: req.amount,
                    },
                );
            }
        }
        // Check both sides for overflow before writing either.

        let from_after: Amount = match self.balance(&req.from, req.asset.as_str()).checked_sub(
            req.amount,
        ) {
            Some(v) => v,
            None => {
                return Err(LedgerError::Overflow);
            },
        };
        let to_after: Amount = match self.balance(&req.to, req.asset.as_str()).checked_add(
            req.amount,
        ) {
            Some(v) => v,
            None => {
                return Err(LedgerError::Overflow);
            },
        };
        let debit_seq: u64 = self.next_seq;
        let credit_seq: u64 = self.next_seq + 1;
        self.next_seq = self.next_seq + 2;
        let delta: Amount = -req.amount;
        self.entries.push(
            Entry {
                seq: debit_seq,
                idem_key: req.idem_key.clone(),
                tick: req.tick,
                account: req.from.clone(),
                counterparty: req.to.clone(),
                asset: req.asset.clone(),
                delta,
                reason: req.reason.clone(),
                actor: req.actor.clone(),
            },
        );
        self.entries.push(
            Entry {
                seq: credit_seq,
                idem_key: req.idem_key.clone(),
                tick: req.tick,
                account: req.to.clone(),
                counterparty: req.from.clone(),
                asset: req.asset.clone(),
                delta: req.amount,
                reason: req.reason,
                actor: req.actor,
            },
        );
        self.balances.insert((req.from, req.asset.clone()), from_after);
        self.balances.insert((req.to, req.asset), to_after);
        let receipt = Receipt {
            idem_key: req.idem_key.clone(),
            debit_seq,
            credit_seq,
            amount: req.amount,
            deduplicated: false,
        };
        self.seen.insert(req.idem_key.0, receipt.clone());
        proof {
            let after = transfer_after(b, r);
            assert(self.book().entries =~= after.entries);
            assert(self.book().seen =~= after.seen);
            lemma_transfer_keeps_wf(b, r);
            assert forall|a: AccountView, s: Seq<char>| #[trigger] self.cached(a, s) == entry_sum(
                self.book().entries,
                a,
                s,
            ) by {
                law_transfer_moves_the_amount(b, r, a, s);
                assert(old(self).cached(a, s) == entry_sum(b.entries, a, s));
            }
        }
        Ok(receipt)
    }

    /// An account's balance for an asset, derived from the log.
    pub fn balance(&self, account: &Account, asset: &str) -> (r: Amount)
        requires
            self.cache_wf(),
        ensures
            r == self.cached(account@, asset@),
            self.wf() ==> r == self.book().balance(account@, asset@),
    {
        let ghost c = self.cached(account@, asset@);
        let key = (account.clone(), asset.to_owned());
        match self.balances.get(&key) {
            Some(v) => *v,
            None => 0,
        }
    }

    /// Balance minus anything reserved by in-flight transfers.
    ///
    /// This is what a spend must check against. Using the raw balance
    /// instead would let a player spend the same funds twice while a
    /// commit is in flight.
    pub fn available(&self, account: &Account, asset: &str) -> (r: Amount)
        requires
            self.wf(),
        ensures
            r == self.book().available(account@, asset@),
    {
        let balance: Amount = self.balance(account, asset);
        let ghost holds = self.book().holds;
        let ghost total = held_sum(holds, account@, asset@);
        proof {
            lemma_held_sum_nonneg(holds, account@, asset@);
            if account@ == AccountView::Mint {
                lemma_held_sum_none(holds, account@, asset@);
            }
        }
        let mut reserved: Amount = 0;
        let mut i: usize = 0;
        while i < self.reservations.len()
            invariant
                i <= self.reservations@.len(),
                self.wf(),
                holds == self.book().holds,
                reserved == held_sum(holds.take(i as int), account@, asset@),
                total == held_sum(holds, account@, asset@),
                total <= i64::MAX,
            decreases self.reservations@.len() - i,
        {
            let r = &self.reservations[i];
            proof {
                assert forall|j: int| 0 <= j < holds.len() implies (#[trigger] holds[j]).amount
                    > 0 by {}
                lemma_held_sum_prefix(holds, i + 1, account@, asset@);
                assert(holds.take(i + 1).drop_last() =~= holds.take(i as int));
            }
            if r.account.same(account) && text::str_same(r.asset.as_str(), asset) {
                reserved = reserved + r.amount;
            }
            i = i + 1;
        }
        assert(holds.take(i as int) =~= holds);
        balance - reserved
    }

    /// Hold funds against an in-flight transfer, so that the same funds
    /// cannot be spent again while a commit is in the air.
    pub fn reserve(&mut self, account: &Account, asset: &str, amount: Amount) -> (res: Result<
        ReservationId,
        LedgerError,
    >)
        requires
            old(self).wf(),
            old(self).book().next_hold < u64::MAX,
        ensures
            final(self).wf(),
            final(self).book() == reserve_after(
                old(self).book(),
                account@,
                asset@,
                amount as int,
            ),
            match res {
                Ok(id) => reserve_outcome(old(self).book(), account@, asset@, amount as int) == Ok::<
                    nat,
                    LedgerErrorView,
                >(id.0 as nat),
                Err(e) => reserve_outcome(old(self).book(), account@, asset@, amount as int)
                    == Err::<nat, LedgerErrorView>(e@),
            },
    {
        if amount <= 0 {
            return Err(LedgerError::NonPositiveAmount(amount));
        }
        let available: Amount = self.available(account, asset);
        if available < amount {
            return Err(
                LedgerError::InsufficientFunds {
                    account: account.clone(),
                    asset: asset.to_owned(),
                    available,
                    needed: amount,
                },
            );
        }
        let id = ReservationId(self.next_reservation);
        self.next_reservation = self.next_reservation + 1;
        self.reservations.push(
            Reservation { id: id.0, account: account.clone(), asset: asset.to_owned(), amount },
        );
        proof {
            let b = old(self).book();
            lemma_reserve_keeps_wf(b, account@, asset@, amount as int);
            assert(self.book().holds =~= reserve_after(b, account@, asset@, amount as int).holds);
            assert forall|a: AccountView, s: Seq<char>| #[trigger] self.cached(a, s) == entry_sum(
                self.book().entries,
                a,
                s,
            ) by {
                assert(old(self).cached(a, s) == entry_sum(b.entries, a, s));
            }
        }
        Ok(id)
    }

    /// Release a reservation without spending it.
    pub fn release(&mut self, id: ReservationId) -> (res: Result<(), LedgerError>)
        requires
            old(self).wf(),
        ensures
            final(self).wf(),
            final(self).book() == (Book {
                holds: without(old(self).book().holds, id.0 as nat),
                ..old(self).book()
            }),
            match res {
                Ok(()) => is_held(old(self).book().holds, id.0 as nat),
                Err(e) => !is_held(old(self).book().holds, id.0 as nat) && e@
                    == LedgerErrorView::UnknownReservation,
            },
    {
        let ghost b = self.book();
        let mut i: usize = 0;
        while i < self.reservations.len()
            invariant
                i <= self.reservations@.len(),
                self.wf(),
                *self == *old(self),
                b == self.book(),
                forall|j: int| 0 <= j < i ==> (#[trigger] b.holds[j]).id != id.0,
            decreases self.reservations@.len() - i,
        {
            if self.reservations[i].id == id.0 {
                self.reservations.remove(i);
                proof {
                    lemma_without(b.holds, i as int, AccountView::Mint, Seq::empty());
                    lemma_release_keeps_wf(b, id.0 as nat);
                    assert(self.book().holds =~= b.holds.remove(i as int));
                    assert forall|a: AccountView, s: Seq<char>| #[trigger] self.cached(a, s)
                        == entry_sum(self.book().entries, a, s) by {
                        assert(old(self).cached(a, s) == entry_sum(b.entries, a, s));
                    }
                }
                return Ok(());
            }
            i = i + 1;
        }
        proof {
            lemma_without_absent(b.holds, id.0 as nat);
        }
        Err(LedgerError::UnknownReservation)
    }

    /// Every entry, oldest first. The audit trail itself.
    pub fn entries(&self) -> (r: &[Entry])
        ensures
            r@ == self.log(),
            entry_views(r@) == self.book().entries,
    {
        self.entries.as_slice()
    }

    /// Entries touching one account, oldest first, for a support
    /// investigation.
    pub fn history(&self, account: &Account) -> (r: Vec<&Entry>)
        ensures
            r@.map_values(|e: &Entry| *e) == self.log().filter(touches_stored(account@)),
    {
        let mut out: Vec<&Entry> = Vec::new();
        let mut i: usize = 0;
        let ghost keep = touches_stored(account@);
        let ghost all = self.entries@;
        proof {
            reveal(Seq::filter);
        }
        while i < self.entries.len()
            invariant
                i <= self.entries@.len(),
                all == self.entries@,
                keep == touches_stored(account@),
                out@.map_values(|e: &Entry| *e) == all.take(i as int).filter(keep),
            decreases self.entries@.len() - i,
        {
            let e: &Entry = &self.entries[i];
            proof {
                reveal(Seq::filter);
                assert(all.take(i + 1).drop_last() =~= all.take(i as int));
            }
            if e.account.same(account) {
                out.push(e);
            }
            i = i + 1;
        }
        assert(all.take(i as int) =~= all);
        out
    }

    /// The receipt issued under `key`, as it was first handed out.
    pub fn receipt_for_inner(&self, key: &IdemKey) -> (r: Option<Receipt>)
        ensures
            match r {
                Some(receipt) => self.book().seen.contains_key(key@) && receipt@
                    == self.book().seen[key@],
                None => !self.book().seen.contains_key(key@),
            },
    {
        match self.seen.get(key.as_str()) {
            Some(receipt) => Some(receipt.clone()),
            None => None,
        }
    }

    /// **The dupe detector.** Every asset must sum to exactly zero across
    /// all accounts, the mint and the sink counted.
    ///
    /// Reports the assets that do not, in order of their names. A non-zero
    /// result means value entered or left the economy without going
    /// through [`transfer`], which is either a bug or an exploit.
    ///
    /// [`transfer`]: Ledger::transfer
    pub fn audit_zero_sum(&self) -> (out: Vec<Discrepancy>)
        ensures
            lists_imbalances(self.book().entries, out@),
            self.wf() ==> out@.len() == 0,
    {
        let ghost es = self.book().entries;
        let mut totals: SortedMap<String, i128> = SortedMap::new();
        let mut i: usize = 0;
        while i < self.entries.len()
            invariant
                i <= self.entries@.len(),
                es == entry_views(self.entries@),
                totals.wf(),
                forall|s: Seq<char>|
                    #[trigger] totals@.contains_key(s) ==> totals@[s] == asset_sum(
                        es.take(i as int),
                        s,
                    ),
                forall|s: Seq<char>|
                    !(#[trigger] totals@.contains_key(s)) ==> asset_sum(es.take(i as int), s) == 0,
            decreases self.entries@.len() - i,
        {
            let e: &Entry = &self.entries[i];
            let before: i128 = match totals.get(&e.asset) {
                Some(v) => *v,
                None => 0,
            };
            proof {
                lemma_asset_sum_bound(es.take(i as int), e.asset@);
                assert forall|j: int| 0 <= j < es.take(i as int).len() implies i64::MIN <= (
                #[trigger] es.take(i as int)[j]).delta <= i64::MAX by {
                }
                assert(i * 0x8000_0000_0000_0000 + 0x8000_0000_0000_0000
                    <= 0x8000_0000_0000_0000_0000_0000_0000_0000) by (nonlinear_arith)
                    requires
                        i < 0xffff_ffff_ffff_ffff,
                ;
                assert(es.take(i + 1).drop_last() =~= es.take(i as int));
            }
            totals.insert(e.asset.clone(), before + e.delta as i128);
            i = i + 1;
        }
        assert(es.take(i as int) =~= es);
        let mut out: Vec<Discrepancy> = Vec::new();
        let mut k: usize = 0;
        proof {
            totals.lemma_pairs();
        }
        while k < totals.len()
            invariant
                k <= totals.pairs().len(),
                totals.wf(),
                es == self.book().entries,
                crate::sorted_map::ascending(totals.pairs()),
                forall|j: int|
                    0 <= j < totals.pairs().len() ==> (#[trigger] totals.pairs()[j]).1 == asset_sum(
                        es,
                        totals.pairs()[j].0@,
                    ),
                forall|a: int, b: int|
                    0 <= a < b < out@.len() ==> text::text_before(
                        (#[trigger] out@[a]).asset@,
                        (#[trigger] out@[b]).asset@,
                    ),
                forall|a: int|
                    0 <= a < out@.len() ==> {
                        &&& (#[trigger] out@[a]).imbalance == asset_sum(es, out@[a].asset@)
                        &&& out@[a].imbalance != 0
                        &&& exists|j: int|
                            0 <= j < k && (#[trigger] totals.pairs()[j]).0@ == out@[a].asset@
                    },
                forall|j: int|
                    0 <= j < k && (#[trigger] totals.pairs()[j]).1 != 0 ==> exists|a: int|
                        0 <= a < out@.len() && (#[trigger] out@[a]).asset@ == totals.pairs()[j].0@,
            decreases totals.pairs().len() - k,
        {
            let entry = totals.entry(k);
            let ghost prev = out@;
            if entry.1 != 0 {
                let found = Discrepancy { asset: entry.0.clone(), imbalance: entry.1 };
                out.push(found);
                proof {
                    assert forall|a: int, b: int| 0 <= a < b < out@.len() implies text::text_before(
                        (#[trigger] out@[a]).asset@,
                        (#[trigger] out@[b]).asset@,
                    ) by {
                        if b == prev.len() {
                            let j = choose|j: int|
                                0 <= j < k && (#[trigger] totals.pairs()[j]).0@ == prev[a].asset@;
                            assert(text::text_before(
                                totals.pairs()[j].0@,
                                totals.pairs()[k as int].0@,
                            ));
                        }
                    }
                }
            }
            proof {
                assert forall|j: int| 0 <= j < k + 1 && (#[trigger] totals.pairs()[j]).1
                    != 0 implies exists|a: int|
                    0 <= a < out@.len() && (#[trigger] out@[a]).asset@ == totals.pairs()[j].0@ by {
                    if j < k {
                        let a = choose|a: int|
                            0 <= a < prev.len() && (#[trigger] prev[a]).asset@
                                == totals.pairs()[j].0@;
                        assert(out@[a] == prev[a]);
                    } else {
                        assert(out@[out@.len() - 1].asset@ == totals.pairs()[j].0@);
                    }
                }
            }
            k = k + 1;
        }
        proof {
            assert forall|s: Seq<char>| #[trigger] asset_sum(es, s) != 0 implies exists|a: int|
                0 <= a < out@.len() && (#[trigger] out@[a]).asset@ == s by {
                assert(totals@.contains_key(s));
                let j = choose|j: int|
                    0 <= j < totals.pairs().len() && (#[trigger] totals.pairs()[j]).0@ == s;
            }
            if self.wf() && out@.len() > 0 {
                law_books_balance(self.book(), out@[0].asset@);
            }
        }
        out
    }

    /// What the log says of every account that it touches, with a zero for
    /// every account that only the cache knows.
    fn derived_balances(&self) -> (derived: SortedMap<(Account, Asset), Amount>)
        requires
            self.cache_wf(),
            sums_fit(self.book().entries),
        ensures
            derived.wf(),
            forall|a: AccountView, s: Seq<char>|
                #[trigger] derived@.contains_key((a, s)) ==> derived@[(a, s)] == entry_sum(
                    self.book().entries,
                    a,
                    s,
                ),
            forall|a: AccountView, s: Seq<char>|
                !(#[trigger] derived@.contains_key((a, s))) ==> entry_sum(
                    self.book().entries,
                    a,
                    s,
                ) == 0 && self.cached(a, s) == 0,
    {
        let ghost es = self.book().entries;
        let mut derived: SortedMap<(Account, Asset), Amount> = SortedMap::new();
        let mut i: usize = 0;
        while i < self.entries.len()
            invariant
                i <= self.entries@.len(),
                es == entry_views(self.entries@),
                sums_fit(es),
                derived.wf(),
                forall|a: AccountView, s: Seq<char>|
                    #[trigger] derived@.contains_key((a, s)) ==> derived@[(a, s)] == entry_sum(
                        es.take(i as int),
                        a,
                        s,
                    ),
                forall|a: AccountView, s: Seq<char>|
                    !(#[trigger] derived@.contains_key((a, s))) ==> entry_sum(
                        es.take(i as int),
                        a,
                        s,
                    ) == 0,
            decreases self.entries@.len() - i,
        {
            let e: &Entry = &self.entries[i];
            let key = (e.account.clone(), e.asset.clone());
            let before: Amount = match derived.get(&key) {
                Some(v) => *v,
                None => 0,
            };
            proof {
                assert(es.take(i + 1).drop_last() =~= es.take(i as int));
                assert(i64::MIN <= entry_sum(es.take(i + 1), e.account@, e.asset@) <= i64::MAX);
            }
            derived.insert(key, before + e.delta);
            i = i + 1;
        }
        assert(es.take(i as int) =~= es);
        let mut k: usize = 0;
        proof {
            self.balances.lemma_pairs();
        }
        while k < self.balances.len()
            invariant
                k <= self.balances.pairs().len(),
                es == self.book().entries,
                derived.wf(),
                forall|a: AccountView, s: Seq<char>|
                    #[trigger] derived@.contains_key((a, s)) ==> derived@[(a, s)] == entry_sum(
                        es,
                        a,
                        s,
                    ),
                forall|a: AccountView, s: Seq<char>|
                    !(#[trigger] derived@.contains_key((a, s))) ==> entry_sum(es, a, s) == 0,
                forall|j: int|
                    0 <= j < k ==> derived@.contains_key((#[trigger] self.balances.pairs()[j]).0@),
            decreases self.balances.pairs().len() - k,
        {
            let slot = self.balances.entry(k);
            if derived.get(&slot.0).is_none() {
                let key = (slot.0.0.clone(), slot.0.1.clone());
                derived.insert(key, 0);
            }
            proof {
                assert forall|j: int| 0 <= j < k + 1 implies derived@.contains_key(
                    (#[trigger] self.balances.pairs()[j]).0@,
                ) by {
                }
            }
            k = k + 1;
        }
        derived
    }

    /// Compare the cached balances with what the log says.
    ///
    /// If the cache can drift from the entries, it is itself a dupe vector:
    /// a player would spend money the log says they never had. Returns
    /// every account and asset that disagree, in key order, with the cached
    /// and the derived balance.
    pub fn audit_balances_match_entries(&self) -> (out: Vec<(Account, Asset, Amount, Amount)>)
        requires
            self.cache_wf(),
            sums_fit(self.book().entries),
        ensures
            forall|i: int, j: int|
                0 <= i < j < out@.len() ==> <(Account, Asset) as Key>::precedes(
                    ((#[trigger] out@[i]).0@, out@[i].1@),
                    ((#[trigger] out@[j]).0@, out@[j].1@),
                ),
            forall|i: int|
                0 <= i < out@.len() ==> {
                    &&& (#[trigger] out@[i]).2 == self.cached(out@[i].0@, out@[i].1@)
                    &&& out@[i].3 == entry_sum(self.book().entries, out@[i].0@, out@[i].1@)
                    &&& out@[i].2 != out@[i].3
                },
            forall|a: AccountView, s: Seq<char>|
                #[trigger] self.cached(a, s) != entry_sum(self.book().entries, a, s)
                    ==> exists|i: int|
                    0 <= i < out@.len() && (#[trigger] out@[i]).0@ == a && out@[i].1@ == s,
            self.wf() ==> out@.len() == 0,
    {
        let ghost es = self.book().entries;
        let derived = self.derived_balances();
        let mut out: Vec<(Account, Asset, Amount, Amount)> = Vec::new();
        let mut k: usize = 0;
        let ghost pairs = derived.pairs();
        proof {
            derived.lemma_pairs();
            assert forall|j: int| 0 <= j < pairs.len() implies (#[trigger] pairs[j]).1
                == entry_sum(es, pairs[j].0.0@, pairs[j].0.1@) by {
            }
        }
        while k < derived.len()
            invariant
                k <= pairs.len(),
                pairs == derived.pairs(),
                derived.wf(),
                self.cache_wf(),
                es == self.book().entries,
                crate::sorted_map::ascending(pairs),
                forall|j: int|
                    0 <= j < pairs.len() ==> (#[trigger] pairs[j]).1 == entry_sum(
                        es,
                        pairs[j].0.0@,
                        pairs[j].0.1@,
                    ),
                forall|a: int, b: int|
                    0 <= a < b < out@.len() ==> <(Account, Asset) as Key>::precedes(
                        ((#[trigger] out@[a]).0@, out@[a].1@),
                        ((#[trigger] out@[b]).0@, out@[b].1@),
                    ),
                forall|a: int|
                    0 <= a < out@.len() ==> {
                        &&& (#[trigger] out@[a]).2 == self.cached(out@[a].0@, out@[a].1@)
                        &&& out@[a].3 == entry_sum(es, out@[a].0@, out@[a].1@)
                        &&& out@[a].2 != out@[a].3
                        &&& exists|j: int|
                            0 <= j < k && (#[trigger] pairs[j]).0@ == (out@[a].0@, out@[a].1@)
                    },
                forall|j: int|
                    0 <= j < k && self.cached((#[trigger] pairs[j]).0.0@, pairs[j].0.1@)
                        != pairs[j].1 ==> exists|a: int|
                        0 <= a < out@.len() && (#[trigger] out@[a]).0@ == pairs[j].0.0@
                            && out@[a].1@ == pairs[j].0.1@,
            decreases pairs.len() - k,
        {
            let slot = derived.entry(k);
            let ghost prev = out@;
            let cached: Amount = self.balance(&slot.0.0, slot.0.1.as_str());
            if cached != slot.1 {
                out.push((slot.0.0.clone(), slot.0.1.clone(), cached, slot.1));
                proof {
                    assert forall|a: int, b: int| 0 <= a < b < out@.len() implies <(
                        Account,
                        Asset,
                    ) as Key>::precedes(
                        ((#[trigger] out@[a]).0@, out@[a].1@),
                        ((#[trigger] out@[b]).0@, out@[b].1@),
                    ) by {
                        if b == prev.len() {
                            let j = choose|j: int|
                                0 <= j < k && (#[trigger] pairs[j]).0@ == (
                                    prev[a].0@,
                                    prev[a].1@,
                                );
                            assert(<(Account, Asset) as Key>::precedes(
                                pairs[j].0@,
                                pairs[k as int].0@,
                            ));
                        }
                    }
                }
            }
            proof {
                assert forall|j: int| 0 <= j < k + 1 && self.cached(
                    (#[trigger] pairs[j]).0.0@,
                    pairs[j].0.1@,
                ) != pairs[j].1 implies exists|a: int|
                    0 <= a < out@.len() && (#[trigger] out@[a]).0@ == pairs[j].0.0@ && out@[a].1@
                        == pairs[j].0.1@ by {
                    if j < k {
                        let a = choose|a: int|
                            0 <= a < prev.len() && (#[trigger] prev[a]).0@ == pairs[j].0.0@
                                && prev[a].1@ == pairs[j].0.1@;
                        assert(out@[a] == prev[a]);
                    } else {
                        assert(out@[out@.len() - 1].0@ == pairs[j].0.0@);
                    }
                }
            }
            k = k + 1;
        }
        proof {
            assert forall|a: AccountView, s: Seq<char>| #[trigger] self.cached(a, s) != entry_sum(
                es,
                a,
                s,
            ) implies exists|i: int|
                0 <= i < out@.len() && (#[trigger] out@[i]).0@ == a && out@[i].1@ == s by {
                assert(derived@.contains_key((a, s)));
            }
            if self.wf() && out@.len() > 0 {
                let c = self.cached(out@[0].0@, out@[0].1@);
            }
        }
        out
    }

    /// Total ever created, as a positive number.
    ///
    /// Worth surfacing because a sudden jump is the shape of an exploit
    /// even when the books still balance.
    pub fn total_minted(&self, asset: &str) -> (r: i128)
        requires
            self.cache_wf(),
        ensures
            r == -self.cached(AccountView::Mint, asset@),
            self.wf() ==> r == -self.book().balance(AccountView::Mint, asset@),
    {
        -(self.balance(&Account::Mint, asset) as i128)
    }
}

impl Default for Ledger {
    /// An empty ledger.
    fn default() -> (l: Self)
        ensures
            l.wf(),
            l.book() == Book::empty(),
    {
        Ledger::new()
    }
}

// ---------------------------------------------------------------------------
// What the operations keep.
// ---------------------------------------------------------------------------

/// A transfer keeps the book whole.
pub proof fn lemma_transfer_keeps_wf(b: Book, r: RequestView)
    requires
        b.wf(),
    ensures
        transfer_after(b, r).wf(),
{
    if moves_value(b, r) {
        let d = debit_of(b, r);
        let c = credit_of(b, r);
        let n = b.entries.len() as int;
        let mid = b.entries.push(d);
        let b2 = transfer_after(b, r);
        assert forall|k: int| 0 <= 2 * k < b2.entries.len() implies #[trigger] b2.pair_at(k) by {
            if 2 * k < n {
                assert(b.pair_at(k));
            }
        }
        assert forall|key: Seq<char>| #[trigger] b2.seen.contains_key(key) implies {
            &&& b2.seen[key].debit_seq < b2.entries.len()
            &&& b2.seen[key].debit_seq % 2 == 0
            &&& b2.entries[b2.seen[key].debit_seq as int].idem_key == key
        } by {
        }
        assert forall|a: AccountView, s: Seq<char>| true implies {
            &&& #[trigger] entry_sum(mid, a, s) == entry_sum(b.entries, a, s) - (if a == r.from && s
                == r.asset {
                r.amount
            } else {
                0
            })
            &&& entry_sum(b2.entries, a, s) == entry_sum(mid, a, s) + (if a == r.to && s
                == r.asset {
                r.amount
            } else {
                0
            })
        } by {
            lemma_entry_sum_push(b.entries, d, a, s);
            lemma_entry_sum_push(mid, c, a, s);
        }
        assert forall|a: AccountView, s: Seq<char>| a != AccountView::Mint implies
            #[trigger] held_sum(b2.holds, a, s) <= entry_sum(b2.entries, a, s) by {
            let at_mid = entry_sum(mid, a, s);
        }
        assert forall|m: int, a: AccountView, s: Seq<char>| 0 <= m <= b2.entries.len() implies
            i64::MIN <= #[trigger] entry_sum(b2.entries.take(m), a, s) <= i64::MAX by {
            let at_mid = entry_sum(mid, a, s);
            assert(b.entries.take(n) =~= b.entries);
            if m <= n {
                assert(b2.entries.take(m) =~= b.entries.take(m));
            } else if m != n + 1 {
                assert(b2.entries.take(m) =~= b2.entries);
            }
        }
        assert forall|m: int, a: AccountView, s: Seq<char>|
            0 <= m <= b2.entries.len() && a != AccountView::Mint implies 0 <= #[trigger] entry_sum(
            b2.entries.take(m),
            a,
            s,
        ) by {
            let at_mid = entry_sum(mid, a, s);
            lemma_held_sum_nonneg(b.holds, a, s);
            if m <= n {
                assert(b2.entries.take(m) =~= b.entries.take(m));
            } else if m != n + 1 {
                assert(b2.entries.take(m) =~= b2.entries);
            }
        }
    }
}

/// A reservation keeps the book whole.
pub proof fn lemma_reserve_keeps_wf(b: Book, a: AccountView, s: Seq<char>, amount: int)
    requires
        b.wf(),
    ensures
        reserve_after(b, a, s, amount).wf(),
{
    if reserve_outcome(b, a, s, amount) is Ok {
        let b2 = reserve_after(b, a, s, amount);
        let h = Hold { id: b.next_hold, account: a, asset: s, amount };
        assert forall|k: int| 0 <= 2 * k < b2.entries.len() implies #[trigger] b2.pair_at(k) by {
            assert(b.pair_at(k));
        }
        law_mint_only_pays_out(b, s);
        if a == AccountView::Mint {
            assert(held_sum(b.holds, a, s) >= 0) by {
                lemma_held_sum_nonneg(b.holds, a, s);
            }
        }
        assert forall|q: AccountView, t: Seq<char>| q != AccountView::Mint implies
            #[trigger] held_sum(b2.holds, q, t) <= entry_sum(b2.entries, q, t) by {
            lemma_held_sum_push(b.holds, h, q, t);
        }
        assert forall|i: int| 0 <= i < b2.holds.len() implies {
            &&& (#[trigger] b2.holds[i]).amount > 0
            &&& b2.holds[i].account != AccountView::Mint
            &&& b2.holds[i].id < b2.next_hold
        } by {
        }
        assert forall|i: int, j: int| 0 <= i < j < b2.holds.len() implies (
        #[trigger] b2.holds[i]).id != (#[trigger] b2.holds[j]).id by {
        }
    }
}

/// Releasing a reservation keeps the book whole.
pub proof fn lemma_release_keeps_wf(b: Book, id: nat)
    requires
        b.wf(),
    ensures
        (Book { holds: without(b.holds, id), ..b }).wf(),
{
    if is_held(b.holds, id) {
        let p = choose|i: int| 0 <= i < b.holds.len() && (#[trigger] b.holds[i]).id == id;
        let b2 = Book { holds: without(b.holds, id), ..b };
        assert forall|k: int| 0 <= 2 * k < b2.entries.len() implies #[trigger] b2.pair_at(k) by {
            assert(b.pair_at(k));
        }
        assert forall|q: AccountView, t: Seq<char>| q != AccountView::Mint implies
            #[trigger] held_sum(b2.holds, q, t) <= entry_sum(b2.entries, q, t) by {
            lemma_without(b.holds, p, q, t);
        }
        lemma_without(b.holds, p, AccountView::Burn, Seq::empty());
        assert forall|i: int| 0 <= i < b2.holds.len() implies {
            &&& (#[trigger] b2.holds[i]).amount > 0
            &&& b2.holds[i].account != AccountView::Mint
            &&& b2.holds[i].id < b2.next_hold
        } by {
            let i0 = if i < p {
                i
            } else {
                i + 1
            };
        }
        assert forall|i: int, j: int| 0 <= i < j < b2.holds.len() implies (
        #[trigger] b2.holds[i]).id != (#[trigger] b2.holds[j]).id by {
            let i0 = if i < p {
                i
            } else {
                i + 1
            };
            let j0 = if j < p {
                j
            } else {
                j + 1
            };
        }
    } else {
        assert forall|i: int| 0 <= i < b.holds.len() implies (#[trigger] b.holds[i]).id != id by {}
        lemma_without_absent(b.holds, id);
    }
}

// ---------------------------------------------------------------------------
// Laws.
// ---------------------------------------------------------------------------

/// Every asset sums to zero across all accounts, mint and sink counted.
pub proof fn law_books_balance(b: Book, s: Seq<char>)
    requires
        b.wf(),
    ensures
        asset_sum(b.entries, s) == 0,
{
    lemma_pairs_sum_to_zero(b, b.entries.len() as int, s);
    assert(b.entries.take(b.entries.len() as int) =~= b.entries);
}

/// Nobody but the mint is ever overdrawn, and what is held is covered.
pub proof fn law_no_overdraft(b: Book, a: AccountView, s: Seq<char>)
    requires
        b.wf(),
        a != AccountView::Mint,
    ensures
        0 <= b.available(a, s) <= b.balance(a, s),
{
    lemma_held_sum_nonneg(b.holds, a, s);
}

/// The mint's balance is never positive, so the total minted never is
/// negative.
pub proof fn law_mint_only_pays_out(b: Book, s: Seq<char>)
    requires
        b.wf(),
    ensures
        b.balance(AccountView::Mint, s) <= 0,
{
    law_books_balance(b, s);
    assert forall|a: AccountView| a != AccountView::Mint implies #[trigger] entry_sum(
        b.entries,
        a,
        s,
    ) >= 0 by {
        law_no_overdraft(b, a, s);
    }
    lemma_mint_not_positive(b.entries, s);
}

/// A repeated key moves value exactly once: whatever else it asks for, and
/// however the balances stand by then, the repeat gets the original receipt
/// back, marked as deduplicated, and leaves the book as it was.
pub proof fn law_retry_moves_nothing(b: Book, r: RequestView, later: RequestView)
    requires
        moves_value(b, r),
        later.idem_key == r.idem_key,
    ensures
        transfer_outcome(transfer_after(b, r), later) == Ok::<ReceiptView, LedgerErrorView>(
            ReceiptView { deduplicated: true, ..transfer_outcome(b, r)->Ok_0 },
        ),
        transfer_after(transfer_after(b, r), later) == transfer_after(b, r),
{
}

/// A receipt once issued stays on file through every later transfer.
pub proof fn law_receipts_are_kept(b: Book, key: Seq<char>, later: RequestView)
    requires
        b.seen.contains_key(key),
    ensures
        transfer_after(b, later).seen.contains_key(key),
        transfer_after(b, later).seen[key] == b.seen[key],
{
}

/// A refused transfer leaves no trace.
pub proof fn law_refusal_leaves_no_trace(b: Book, r: RequestView)
    requires
        transfer_outcome(b, r) is Err,
    ensures
        transfer_after(b, r) == b,
{
}

/// A transfer that moves value takes the amount from one account, gives it
/// to the other, and touches no other balance and no other asset.
pub proof fn law_transfer_moves_the_amount(b: Book, r: RequestView, a: AccountView, s: Seq<char>)
    requires
        moves_value(b, r),
    ensures
        transfer_after(b, r).balance(a, s) == b.balance(a, s) + (if s != r.asset {
            0
        } else if a == r.to {
            r.amount
        } else if a == r.from {
            -r.amount
        } else {
            0
        }),
        transfer_after(b, r).entries.len() == b.entries.len() + 2,
{
    let mid = b.entries.push(debit_of(b, r));
    lemma_entry_sum_push(b.entries, debit_of(b, r), a, s);
    lemma_entry_sum_push(mid, credit_of(b, r), a, s);
}

/// Reserved funds cannot be spent twice: no transfer of value takes an
/// account, the mint aside, below what is held against it.
pub proof fn law_reserved_funds_are_safe(b: Book, r: RequestView)
    requires
        b.wf(),
        moves_value(b, r),
        r.from != AccountView::Mint,
    ensures
        r.amount <= b.balance(r.from, r.asset) - held_sum(b.holds, r.from, r.asset),
        held_sum(b.holds, r.from, r.asset) <= transfer_after(b, r).balance(r.from, r.asset),
{
    law_transfer_moves_the_amount(b, r, r.from, r.asset);
}

/// A reservation lowers what is available by its amount and leaves the
/// balance alone; releasing it brings back the book's holds as they were.
pub proof fn law_release_undoes_reserve(b: Book, a: AccountView, s: Seq<char>, amount: int)
    requires
        b.wf(),
        reserve_outcome(b, a, s, amount) is Ok,
    ensures
        reserve_after(b, a, s, amount).balance(a, s) == b.balance(a, s),
        reserve_after(b, a, s, amount).available(a, s) == b.available(a, s) - amount,
        without(reserve_after(b, a, s, amount).holds, b.next_hold) == b.holds,
{
    let h = Hold { id: b.next_hold, account: a, asset: s, amount };
    lemma_held_sum_push(b.holds, h, a, s);
    assert(b.holds.push(h).drop_last() =~= b.holds);
    assert forall|i: int| 0 <= i < b.holds.len() implies (#[trigger] b.holds[i]).id
        != b.next_hold by {}
    lemma_without_absent(b.holds, b.next_hold);
}

/// Who may pay: a request is answered with a receipt exactly where its key was
/// used before, or where it asks for a positive amount to go from one account
/// to another, the payer is the mint or has that much beyond what is held
/// against it, and neither balance leaves the range of an amount. A hold keeps
/// back what it holds and nothing more.
pub proof fn law_a_transfer_needs_only_cover(b: Book, r: RequestView)
    ensures
        transfer_outcome(b, r) is Ok <==> b.seen.contains_key(r.idem_key) || {
            &&& r.amount > 0
            &&& r.from != r.to
            &&& r.from == AccountView::Mint || r.amount + held_sum(b.holds, r.from, r.asset)
                <= entry_sum(b.entries, r.from, r.asset)
            &&& i64::MIN <= entry_sum(b.entries, r.from, r.asset) - r.amount
            &&& entry_sum(b.entries, r.to, r.asset) + r.amount <= i64::MAX
        },
{
}

/// Each refusal has its own reason, and names it: the amount that is not
/// positive, the account that would pay itself, what is there and what is
/// missing, or a balance that would not fit. Of several reasons the first of
/// these is given.
pub proof fn law_a_refusal_names_its_reason(b: Book, r: RequestView)
    requires
        !b.seen.contains_key(r.idem_key),
    ensures
        r.amount <= 0 ==> transfer_outcome(b, r) == Err::<ReceiptView, LedgerErrorView>(
            LedgerErrorView::NonPositiveAmount(r.amount),
        ),
        r.amount > 0 && r.from == r.to ==> transfer_outcome(b, r) == Err::<
            ReceiptView,
            LedgerErrorView,
        >(LedgerErrorView::SelfTransfer(r.from)),
        r.amount > 0 && r.from != r.to && r.from != AccountView::Mint && r.amount + held_sum(
            b.holds,
            r.from,
            r.asset,
        ) > entry_sum(b.entries, r.from, r.asset) ==> transfer_outcome(b, r) == Err::<
            ReceiptView,
            LedgerErrorView,
        >(
            LedgerErrorView::InsufficientFunds {
                account: r.from,
                asset: r.asset,
                available: entry_sum(b.entries, r.from, r.asset) - held_sum(
                    b.holds,
                    r.from,
                    r.asset,
                ),
                needed: r.amount,
            },
        ),
        transfer_outcome(b, r) matches Err(e) ==> match e {
            LedgerErrorView::NonPositiveAmount(_) => r.amount <= 0,
            LedgerErrorView::SelfTransfer(_) => r.from == r.to,
            LedgerErrorView::InsufficientFunds { .. } => r.from != AccountView::Mint && entry_sum(
                b.entries,
                r.from,
                r.asset,
            ) < r.amount + held_sum(b.holds, r.from, r.asset),
            LedgerErrorView::Overflow => entry_sum(b.entries, r.from, r.asset) - r.amount
                < i64::MIN || entry_sum(b.entries, r.to, r.asset) + r.amount > i64::MAX,
            _ => false,
        },
{
}

/// A first transfer that is accepted is written down as it was asked for: two
/// entries behind those that were there, the payer's with the amount taken off
/// and the receiver's with it added, each naming the other and carrying the
/// key, the tick, the asset, the reason and the actor of the request. The
/// receipt gives their places, and nothing is held or freed by it.
pub proof fn law_a_transfer_is_written_as_asked(b: Book, r: RequestView)
    requires
        !b.seen.contains_key(r.idem_key),
        transfer_outcome(b, r) is Ok,
    ensures
        ({
            let after = transfer_after(b, r);
            let n = b.entries.len();
            let (paid, got) = (after.entries[n as int], after.entries[(n + 1) as int]);
            let receipt = transfer_outcome(b, r)->Ok_0;
            &&& after.entries.len() == n + 2
            &&& after.entries.take(n as int) == b.entries
            &&& paid.seq == n && got.seq == n + 1
            &&& paid.idem_key == r.idem_key && got.idem_key == r.idem_key
            &&& paid.tick == r.tick && got.tick == r.tick
            &&& paid.account == r.from && paid.counterparty == r.to
            &&& got.account == r.to && got.counterparty == r.from
            &&& paid.asset == r.asset && got.asset == r.asset
            &&& paid.delta == -r.amount && got.delta == r.amount
            &&& paid.reason == r.reason && got.reason == r.reason
            &&& paid.actor == r.actor && got.actor == r.actor
            &&& receipt.idem_key == r.idem_key
            &&& receipt.debit_seq == n && receipt.credit_seq == n + 1
            &&& receipt.amount == r.amount && !receipt.deduplicated
            &&& after.seen.contains_key(r.idem_key) && after.seen[r.idem_key] == receipt
            &&& after.seen.remove(r.idem_key) == b.seen
            &&& after.holds == b.holds && after.next_hold == b.next_hold
        }),
{
    assert(transfer_after(b, r).entries.take(b.entries.len() as int) =~= b.entries);
    assert(transfer_after(b, r).seen.remove(r.idem_key) =~= b.seen);
}

/// A balance is what its entries add up to: nothing for an empty log, and each
/// further entry counts for its own account and asset alone.
pub proof fn law_a_balance_is_its_entries(
    b: Book,
    e: EntryView,
    a: AccountView,
    s: Seq<char>,
)
    ensures
        Book::empty().balance(a, s) == 0,
        (Book { entries: b.entries.push(e), ..b }).balance(e.account, e.asset) == b.balance(
            e.account,
            e.asset,
        ) + e.delta,
        a != e.account || s != e.asset ==> (Book { entries: b.entries.push(e), ..b }).balance(a, s)
            == b.balance(a, s),
{
    lemma_entry_sum_push(b.entries, e, e.account, e.asset);
    lemma_entry_sum_push(b.entries, e, a, s);
}

/// What is available is the balance less every hold on it: without holds it is
/// all of it, and each further hold keeps back its amount of its own account
/// and asset alone.
pub proof fn law_a_hold_keeps_back_its_amount(b: Book, h: Hold, a: AccountView, s: Seq<char>)
    ensures
        (Book { holds: Seq::empty(), ..b }).available(a, s) == b.balance(a, s),
        (Book { holds: b.holds.push(h), ..b }).available(h.account, h.asset) == b.available(
            h.account,
            h.asset,
        ) - h.amount,
        a != h.account || s != h.asset ==> (Book { holds: b.holds.push(h), ..b }).available(a, s)
            == b.available(a, s),
{
    lemma_held_sum_push(b.holds, h, h.account, h.asset);
    lemma_held_sum_push(b.holds, h, a, s);
}

/// A hold is granted exactly where the amount is positive and available, under
/// a number that was not used before; otherwise the refusal says why.
pub proof fn law_a_hold_needs_only_cover(b: Book, a: AccountView, s: Seq<char>, amount: int)
    ensures
        ({
            let there = entry_sum(b.entries, a, s) - held_sum(b.holds, a, s);
            &&& reserve_outcome(b, a, s, amount) is Ok <==> 0 < amount <= there
            &&& reserve_outcome(b, a, s, amount) matches Ok(id) ==> id == b.next_hold
            &&& amount <= 0 ==> reserve_outcome(b, a, s, amount) == Err::<nat, LedgerErrorView>(
                LedgerErrorView::NonPositiveAmount(amount),
            )
            &&& 0 < amount && there < amount ==> reserve_outcome(b, a, s, amount) == Err::<
                nat,
                LedgerErrorView,
            >(
                LedgerErrorView::InsufficientFunds {
                    account: a,
                    asset: s,
                    available: there,
                    needed: amount,
                },
            )
        }),
{
}

/// A granted hold stands behind those that were there, for what was asked, and
/// its number is not given out again; the log and the receipts are untouched.
/// A hold that is refused leaves everything as it was.
pub proof fn law_a_hold_is_kept_as_asked(b: Book, a: AccountView, s: Seq<char>, amount: int)
    ensures
        ({
            let after = reserve_after(b, a, s, amount);
            &&& after.entries == b.entries && after.seen == b.seen
            &&& reserve_outcome(b, a, s, amount) is Err ==> after == b
            &&& reserve_outcome(b, a, s, amount) matches Ok(id) ==> {
                let h = after.holds.last();
                &&& after.holds.len() == b.holds.len() + 1
                &&& after.holds.drop_last() == b.holds
                &&& h.id == id && h.account == a && h.asset == s && h.amount == amount
                &&& after.next_hold == id + 1
            }
        }),
{
    let h = Hold { id: b.next_hold, account: a, asset: s, amount };
    assert(b.holds.push(h).drop_last() =~= b.holds);
}

/// Releasing a hold takes exactly that hold away: the others stay, in order.
pub proof fn law_a_release_frees_one_hold(hs: Seq<Hold>, id: nat)
    ensures
        without(hs, id) == hs.filter(|h: Hold| h.id != id),
        forall|h: Hold| #[trigger]
            without(hs, id).contains(h) <==> hs.contains(h) && h.id != id,
        is_held(hs, id) <==> exists|h: Hold| hs.contains(h) && #[trigger] h.id == id,
        !is_held(without(hs, id), id),
    decreases hs.len(),
{
    reveal(Seq::filter);
    let keep = |h: Hold| h.id != id;
    if hs.len() > 0 {
        law_a_release_frees_one_hold(hs.drop_last(), id);
    } else {
        assert(without(hs, id) =~= hs.filter(keep));
    }
    assert forall|h: Hold| #[trigger] without(hs, id).contains(h) <==> hs.contains(h) && h.id
        != id by {
        if hs.contains(h) && h.id != id {
            hs.lemma_filter_contains(keep, hs.index_of(h));
        }
        if hs.filter(keep).contains(h) {
            hs.lemma_filter_contains_rev(keep, h);
            hs.lemma_filter_pred(keep, hs.filter(keep).index_of(h));
        }
    }
    if is_held(hs, id) {
        let i = choose|i: int| 0 <= i < hs.len() && (#[trigger] hs[i]).id == id;
        assert(hs.contains(hs[i]) && hs[i].id == id);
    }
    if exists|h: Hold| hs.contains(h) && #[trigger] h.id == id {
        let h = choose|h: Hold| hs.contains(h) && #[trigger] h.id == id;
        assert(hs[hs.index_of(h)].id == id);
    }
}

/// The audit reports an asset exactly where its entries do not cancel out, with
/// what they add up to, and reports none twice.
pub proof fn law_the_audit_reports_what_does_not_cancel(
    es: Seq<EntryView>,
    e: EntryView,
    out: Seq<Discrepancy>,
    s: Seq<char>,
)
    requires
        lists_imbalances(es, out),
    ensures
        asset_sum(es, s) != 0 <==> exists|i: int|
            0 <= i < out.len() && (#[trigger] out[i]).asset@ == s && out[i].imbalance == asset_sum(
                es,
                s,
            ),
        forall|i: int, j: int|
            0 <= i < j < out.len() ==> (#[trigger] out[i]).asset@ != (#[trigger] out[j]).asset@,
        asset_sum(Seq::empty(), s) == 0,
        asset_sum(es.push(e), s) == asset_sum(es, s) + if e.asset == s {
            e.delta
        } else {
            0
        },
{
    assert(es.push(e).drop_last() =~= es);
    assert forall|i: int, j: int| 0 <= i < j < out.len() implies (#[trigger] out[i]).asset@ != (
    #[trigger] out[j]).asset@ by {
        text::lemma_text_total(out[i].asset@, out[i].asset@);
    }
}

/// A support investigation sees every entry of an account and none of another:
/// an entry is in the history exactly where it is in the log under that
/// account.
pub proof fn law_a_history_is_one_account(es: Seq<EntryView>, a: AccountView, e: EntryView)
    ensures
        es.filter(touches(a)).contains(e) <==> es.contains(e) && e.account == a,
{
    let keep = touches(a);
    if es.contains(e) && e.account == a {
        es.lemma_filter_contains(keep, es.index_of(e));
    }
    if es.filter(keep).contains(e) {
        es.lemma_filter_contains_rev(keep, e);
        es.lemma_filter_pred(keep, es.filter(keep).index_of(e));
    }
}

/// What the ledger is asked is read off the book: a balance is the sum of the
/// account's entries, what is available is that less the holds, what was minted
/// is what the mint paid out, and a receipt is found exactly under a key that
/// was used.
pub proof fn law_queries_read_the_book(
    l: &Ledger,
    a: &Account,
    s: &str,
    key: &IdemKey,
    balance: Amount,
    available: Amount,
    minted: i128,
    receipt: Option<Receipt>,
)
    requires
        l.wf(),
        call_ensures(Ledger::balance, (l, a, s), balance),
        call_ensures(Ledger::available, (l, a, s), available),
        call_ensures(Ledger::total_minted, (l, s), minted),
        call_ensures(Ledger::receipt_for_inner, (l, key), receipt),
    ensures
        balance == entry_sum(l.book().entries, a@, s@),
        available == entry_sum(l.book().entries, a@, s@) - held_sum(l.book().holds, a@, s@),
        minted == -entry_sum(l.book().entries, AccountView::Mint, s@),
        receipt is Some <==> l.book().seen.contains_key(key@),
        receipt is Some ==> receipt->0@ == l.book().seen[key@],
{
}

// ---------------------------------------------------------------------------
// What the calls do.
// ---------------------------------------------------------------------------

/// What a transfer does to a ledger. Under a key that was used it moves nothing
/// and gives the receipt of the first one, marked as repeated. Otherwise it
/// succeeds exactly where the amount is positive, payer and receiver differ,
/// the payer is the mint or has the amount beside what is held of it, and both
/// balances fit; it then writes the two entries and the receipt. A refused one
/// changes nothing.
pub proof fn law_what_a_transfer_does(req: TransferRequest, res: Result<Receipt, LedgerError>)
    ensures
        forall|l: &mut Ledger|
            l.wf() && l.has_room() && #[trigger] call_ensures(Ledger::transfer, (l, req), res) ==> {
                let (b, after, r) = (l.book(), (*final(l)).book(), req@);
                let n = b.entries.len() as int;
                let fresh = !b.seen.contains_key(r.idem_key);
                &&& res is Ok <==> !fresh || {
                    &&& r.amount > 0
                    &&& r.from != r.to
                    &&& r.from == AccountView::Mint || r.amount + held_sum(
                        b.holds,
                        r.from,
                        r.asset,
                    ) <= entry_sum(b.entries, r.from, r.asset)
                    &&& i64::MIN <= entry_sum(b.entries, r.from, r.asset) - r.amount
                    &&& entry_sum(b.entries, r.to, r.asset) + r.amount <= i64::MAX
                }
                &&& !fresh || res is Err ==> after == b
                &&& !fresh ==> {
                    let (filed, given) = (b.seen[r.idem_key], res->Ok_0@);
                    &&& given.deduplicated
                    &&& given.idem_key == filed.idem_key && given.amount == filed.amount
                    &&& given.debit_seq == filed.debit_seq && given.credit_seq == filed.credit_seq
                }
                &&& fresh && res is Ok ==> {
                    let (paid, got) = (after.entries[n], after.entries[n + 1]);
                    let given = res->Ok_0@;
                    &&& after.entries.len() == n + 2 && after.entries.take(n) == b.entries
                    &&& paid.account == r.from && paid.counterparty == r.to && paid.delta
                        == -r.amount
                    &&& got.account == r.to && got.counterparty == r.from && got.delta == r.amount
                    &&& paid.seq == n && got.seq == n + 1
                    &&& paid.idem_key == r.idem_key && got.idem_key == r.idem_key
                    &&& paid.tick == r.tick && got.tick == r.tick
                    &&& paid.asset == r.asset && got.asset == r.asset
                    &&& paid.reason == r.reason && got.reason == r.reason
                    &&& paid.actor == r.actor && got.actor == r.actor
                    &&& !given.deduplicated && given.amount == r.amount && given.idem_key
                        == r.idem_key && given.debit_seq == n && given.credit_seq == n + 1
                    &&& after.seen.contains_key(r.idem_key) && after.seen[r.idem_key] == given
                    &&& after.seen.remove(r.idem_key) == b.seen
                    &&& after.holds == b.holds && after.next_hold == b.next_hold
                }
            },
{
    assert forall|l: &mut Ledger|
        l.wf() && l.has_room() && #[trigger] call_ensures(Ledger::transfer, (l, req), res) && !(
        l.book().seen.contains_key(req@.idem_key)) && res is Ok implies {
        let (b, after) = (l.book(), (*final(l)).book());
        &&& after.entries.take(b.entries.len() as int) == b.entries
        &&& after.seen.remove(req@.idem_key) == b.seen
    } by {
        law_a_transfer_is_written_as_asked(l.book(), req@);
    }
}

/// What the refusal of a transfer says.
pub proof fn law_what_a_refused_transfer_says(req: TransferRequest, e: LedgerError)
    ensures
        forall|l: &mut Ledger|
            l.wf() && l.has_room() && #[trigger] call_ensures(
                Ledger::transfer,
                (l, req),
                Err::<Receipt, LedgerError>(e),
            ) ==> {
                let (b, r) = (l.book(), req@);
                let there = entry_sum(b.entries, r.from, r.asset) - held_sum(
                    b.holds,
                    r.from,
                    r.asset,
                );
                &&& r.amount <= 0 ==> e is NonPositiveAmount && e->NonPositiveAmount_0 == req.amount
                &&& r.amount > 0 && r.from == r.to ==> e is SelfTransfer && e->SelfTransfer_0@
                    == r.from
                &&& r.amount > 0 && r.from != r.to && r.from != AccountView::Mint && there
                    < r.amount ==> e@ == (LedgerErrorView::InsufficientFunds {
                    account: r.from,
                    asset: r.asset,
                    available: there,
                    needed: r.amount,
                })
                &&& r.amount > 0 && r.from != r.to && (r.from == AccountView::Mint || there
                    >= r.amount) ==> e is Overflow
            },
{
}

/// What a reservation does: it is granted exactly where the amount is positive
/// and available, and then keeps that much back under a number of its own.
pub proof fn law_what_a_reservation_does(
    a: &Account,
    s: &str,
    amount: Amount,
    res: Result<ReservationId, LedgerError>,
)
    ensures
        forall|l: &mut Ledger|
            l.wf() && l.book().next_hold < u64::MAX && #[trigger] call_ensures(
                Ledger::reserve,
                (l, a, s, amount),
                res,
            ) ==> {
                let (b, after) = (l.book(), (*final(l)).book());
                let there = entry_sum(b.entries, a@, s@) - held_sum(b.holds, a@, s@);
                let h = after.holds.last();
                &&& res is Ok <==> 0 < amount <= there
                &&& res is Err ==> after == b
                &&& res is Err && amount <= 0 ==> res->Err_0@ == LedgerErrorView::NonPositiveAmount(
                    amount as int,
                )
                &&& res is Err && amount > 0 ==> res->Err_0@
                    == (LedgerErrorView::InsufficientFunds {
                    account: a@,
                    asset: s@,
                    available: there,
                    needed: amount as int,
                })
                &&& res is Ok ==> after.holds.drop_last() == b.holds && after.holds.len()
                    == b.holds.len() + 1 && h.id == res->Ok_0.0 && h.account == a@ && h.asset == s@
                    && h.amount == amount
                &&& res is Ok ==> res->Ok_0.0 == b.next_hold && after.next_hold == b.next_hold + 1
                &&& after.entries == b.entries && after.seen == b.seen
            },
{
    assert forall|l: &mut Ledger|
        l.wf() && l.book().next_hold < u64::MAX && #[trigger] call_ensures(
            Ledger::reserve,
            (l, a, s, amount),
            res,
        ) && res is Ok implies (*final(l)).book().holds.drop_last() == l.book().holds by {
        law_a_hold_is_kept_as_asked(l.book(), a@, s@, amount as int);
    }
}

/// What a release does: the hold under the number goes, the others stay in
/// order, and a number that nothing is held under is refused.
pub proof fn law_what_a_release_does(id: ReservationId, res: Result<(), LedgerError>)
    ensures
        forall|l: &mut Ledger|
            l.wf() && #[trigger] call_ensures(Ledger::release, (l, id), res) ==> {
                let (b, after) = (l.book(), (*final(l)).book());
                &&& res is Ok <==> exists|h: Hold| b.holds.contains(h) && #[trigger] h.id == id.0
                &&& res is Err ==> res->Err_0 is UnknownReservation
                &&& after.holds == b.holds.filter(|h: Hold| h.id != id.0 as nat)
                &&& after.entries == b.entries && after.seen == b.seen && after.next_hold
                    == b.next_hold
            },
{
    assert forall|l: &mut Ledger|
        l.wf() && #[trigger] call_ensures(Ledger::release, (l, id), res) implies {
        let (b, after) = (l.book(), (*final(l)).book());
        &&& res is Ok <==> exists|h: Hold| b.holds.contains(h) && #[trigger] h.id == id.0
        &&& after.holds == b.holds.filter(|h: Hold| h.id != id.0 as nat)
    } by {
        law_a_release_frees_one_hold(l.book().holds, id.0 as nat);
        if exists|h: Hold| l.book().holds.contains(h) && #[trigger] h.id == id.0 {
            let h = choose|h: Hold| l.book().holds.contains(h) && #[trigger] h.id == id.0;
            assert(l.book().holds.contains(h) && h.id == id.0 as nat);
        }
        if is_held(l.book().holds, id.0 as nat) {
            let h = choose|h: Hold| l.book().holds.contains(h) && #[trigger] h.id == id.0 as nat;
            assert(l.book().holds.contains(h) && h.id == id.0);
        }
    }
}

/// An account is a boundary of the economy exactly where value enters or leaves
/// by it, and is described by its kind and its name.
pub proof fn law_how_an_account_is_described(a: &Account, boundary: bool, s: String)
    requires
        call_ensures(Account::is_economy_boundary, (a,), boundary),
        call_ensures(Account::describe, (a,), s),
    ensures
        boundary <==> *a is Mint || *a is Burn,
        *a is Player ==> s@ == "Player("@ + text::debug_quoted(a->Player_0@) + ")"@,
        *a is System ==> s@ == "System("@ + text::debug_quoted(a->System_0@) + ")"@,
        *a is Mint ==> s@ == "Mint"@,
        *a is Burn ==> s@ == "Burn"@,
{
}

/// What an audit of a ledger finds: an asset is listed exactly where the deltas
/// of its entries do not add up to zero, with what they add up to; a ledger in
/// order has none.
pub proof fn law_what_an_audit_finds(l: &Ledger, out: Vec<Discrepancy>, s: Seq<char>)
    requires
        call_ensures(Ledger::audit_zero_sum, (l,), out),
    ensures
        asset_sum(l.book().entries, s) != 0 <==> exists|i: int|
            0 <= i < out@.len() && (#[trigger] out@[i]).asset@ == s,
        forall|i: int|
            0 <= i < out@.len() ==> (#[trigger] out@[i]).imbalance == asset_sum(
                l.book().entries,
                out@[i].asset@,
            ),
        l.wf() ==> out@.len() == 0,
{
}

/// The sentences of the refusals name what they are about.
pub proof fn law_refusals_are_told_in_words(e: &LedgerError, s: String)
    requires
        call_ensures(LedgerError::message, (e,), s),
    ensures
        *e is NonPositiveAmount ==> s@ == "transfer amount must be positive, got "@
            + text::signed_decimal(e->NonPositiveAmount_0 as int),
        *e is InsufficientFunds ==> s@ == e->account@.text() + " has "@ + text::signed_decimal(
            e->available as int,
        ) + " "@ + e->asset@ + ", needs "@ + text::signed_decimal(e->needed as int),
        *e is SelfTransfer ==> s@ == "transfer from "@ + e->SelfTransfer_0@.text() + " to itself"@,
        *e is Overflow ==> s@ == "transfer would overflow the amount type"@,
        *e is UnknownReservation ==> s@ == "released a reservation that was never taken"@,
        *e is WriterFailed ==> s@ == "the ledger writer has failed: "@ + e->WriterFailed_0@,
        *e is WriterBehind ==> s@ == "the ledger writer is behind: "@ + text::decimal(
            e->depth as nat,
        ) + " transfers queued, limit "@ + text::decimal(e->limit as nat),
{
}

/// A key of the server is the text that it was made of.
pub proof fn law_a_key_is_its_text(unique: &str, key: IdemKey)
    requires
        call_ensures(IdemKey::server, (unique,), key),
    ensures
        key@ == unique@,
{
}

} // verus!
