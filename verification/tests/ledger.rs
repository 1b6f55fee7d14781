use void_engine::persist::ledger::{
    Account, Amount, Entry, IdemKey, Ledger, LedgerError, ReservationId, TransferRequest,
};
use void_engine::persist::store::{Durability, LedgerStore};

fn req(from: Account, to: Account, amount: Amount, key: &str) -> TransferRequest {
    TransferRequest {
        idem_key: IdemKey::server(key),
        from,
        to,
        asset: "credits".to_string(),
        amount,
        reason: "test".to_string(),
        actor: "system".to_string(),
        tick: 1,
    }
}

fn funded(who: &str, amount: Amount) -> (Ledger, Account) {
    let mut l = Ledger::new();
    let acct = Account::player(who);
    l.transfer(req(Account::Mint, acct.clone(), amount, "seed")).unwrap();
    (l, acct)
}

#[test]
fn a_transfer_moves_value_both_ways() {
    let (mut l, alice) = funded("alice", 1000);
    let bob = Account::player("bob");

    l.transfer(req(alice.clone(), bob.clone(), 300, "t1")).unwrap();

    assert_eq!(l.balance(&alice, "credits"), 700);
    assert_eq!(l.balance(&bob, "credits"), 300);
}

#[test]
fn each_transfer_writes_two_entries() {
    let (mut l, alice) = funded("alice", 100);
    let before = l.entries().len();
    l.transfer(req(alice, Account::player("bob"), 10, "t1")).unwrap();
    assert_eq!(l.entries().len(), before + 2, "double-entry: debit and credit");
}

#[test]
fn the_books_balance_after_arbitrary_activity() {
    let (mut l, alice) = funded("alice", 5000);
    let bob = Account::player("bob");
    let shop = Account::system("shop");

    l.transfer(req(alice.clone(), bob.clone(), 1200, "a")).unwrap();
    l.transfer(req(bob.clone(), shop.clone(), 700, "b")).unwrap();
    l.transfer(req(shop.clone(), Account::Burn, 200, "c")).unwrap();
    l.transfer(req(Account::Mint, bob.clone(), 50, "d")).unwrap();

    assert!(l.audit_zero_sum().is_empty(), "books did not balance");
    assert!(l.audit_balances_match_entries().is_empty(), "cache drifted from the log");
}

#[test]
fn a_retried_transfer_does_not_move_value_twice() {
    let (mut l, alice) = funded("alice", 1000);
    let bob = Account::player("bob");
    let key = IdemKey::new("session-7", 42, "trade");

    let mut first = req(alice.clone(), bob.clone(), 250, "unused");
    first.idem_key = key.clone();
    let r1 = l.transfer(first.clone()).unwrap();
    assert!(!r1.deduplicated);

    let r2 = l.transfer(first).unwrap();
    assert!(r2.deduplicated, "a repeat must be recognised");
    assert_eq!(r1.debit_seq, r2.debit_seq, "must return the original receipt");

    assert_eq!(l.balance(&alice, "credits"), 750, "value moved twice");
    assert_eq!(l.balance(&bob, "credits"), 250);
    assert!(l.audit_zero_sum().is_empty());
}

#[test]
fn a_retry_succeeds_even_when_funds_are_now_short() {
    let (mut l, alice) = funded("alice", 100);
    let bob = Account::player("bob");

    let mut first = req(alice.clone(), bob.clone(), 60, "k1");
    first.idem_key = IdemKey::new("s", 1, "buy");
    l.transfer(first.clone()).unwrap();

    l.transfer(req(alice.clone(), Account::Burn, 40, "k2")).unwrap();
    assert_eq!(l.balance(&alice, "credits"), 0);

    let again = l.transfer(first).unwrap();
    assert!(again.deduplicated);
    assert_eq!(l.balance(&alice, "credits"), 0, "a retry must not move value");
}

#[test]
fn spending_more_than_you_have_is_refused() {
    let (mut l, alice) = funded("alice", 100);
    let err = l.transfer(req(alice.clone(), Account::player("bob"), 101, "t")).unwrap_err();
    assert!(matches!(err, LedgerError::InsufficientFunds { available: 100, needed: 101, .. }));
    assert_eq!(l.balance(&alice, "credits"), 100, "a refused transfer must change nothing");
}

#[test]
fn a_refused_transfer_writes_no_entries() {
    let (mut l, alice) = funded("alice", 10);
    let before = l.entries().len();
    let _ = l.transfer(req(alice, Account::player("bob"), 999, "t"));
    assert_eq!(l.entries().len(), before, "a failure must leave no partial state");
}

#[test]
fn a_negative_amount_cannot_reverse_a_transfer() {
    let (mut l, alice) = funded("alice", 100);
    let err = l.transfer(req(alice, Account::player("bob"), -50, "t")).unwrap_err();
    assert_eq!(err, LedgerError::NonPositiveAmount(-50));
}

#[test]
fn a_zero_amount_is_refused() {
    let (mut l, alice) = funded("alice", 100);
    assert_eq!(
        l.transfer(req(alice, Account::player("bob"), 0, "t")).unwrap_err(),
        LedgerError::NonPositiveAmount(0),
    );
}

#[test]
fn a_self_transfer_is_refused() {
    let (mut l, alice) = funded("alice", 100);
    let err = l.transfer(req(alice.clone(), alice, 10, "t")).unwrap_err();
    assert!(matches!(err, LedgerError::SelfTransfer(_)));
}

#[test]
fn mint_can_pay_out_from_nothing_and_goes_negative() {
    let mut l = Ledger::new();
    let alice = Account::player("alice");
    l.transfer(req(Account::Mint, alice.clone(), 500, "reward")).unwrap();

    assert_eq!(l.balance(&alice, "credits"), 500);
    assert_eq!(l.balance(&Account::Mint, "credits"), -500);
    assert_eq!(l.total_minted("credits"), 500);
    assert!(l.audit_zero_sum().is_empty(), "minting must still balance");
}

#[test]
fn a_reservation_reduces_available_but_not_balance() {
    let (mut l, alice) = funded("alice", 1000);
    let _r = l.reserve(&alice, "credits", 400).unwrap();

    assert_eq!(l.balance(&alice, "credits"), 1000, "balance is unchanged");
    assert_eq!(l.available(&alice, "credits"), 600, "available is reduced");
}

#[test]
fn reserved_funds_cannot_be_spent_twice() {
    let (mut l, alice) = funded("alice", 1000);
    l.reserve(&alice, "credits", 800).unwrap();

    let err = l.transfer(req(alice, Account::player("bob"), 300, "t")).unwrap_err();
    assert!(matches!(err, LedgerError::InsufficientFunds { available: 200, .. }));
}

#[test]
fn releasing_a_reservation_restores_availability() {
    let (mut l, alice) = funded("alice", 1000);
    let r = l.reserve(&alice, "credits", 800).unwrap();
    l.release(r).unwrap();
    assert_eq!(l.available(&alice, "credits"), 1000);
}

#[test]
fn over_reserving_is_refused() {
    let (mut l, alice) = funded("alice", 100);
    l.reserve(&alice, "credits", 60).unwrap();
    assert!(l.reserve(&alice, "credits", 50).is_err(), "only 40 remains");
}

#[test]
fn releasing_an_unknown_reservation_errors() {
    let mut l = Ledger::new();
    assert_eq!(l.release(ReservationId(99)), Err(LedgerError::UnknownReservation));
}

#[test]
fn the_zero_sum_audit_catches_forged_value() {
    let (mut l, alice) = funded("alice", 100);

    l.entries.push(Entry {
        seq: 999,
        idem_key: IdemKey::server("forged"),
        tick: 1,
        account: alice,
        counterparty: Account::system("nowhere"),
        asset: "credits".to_string(),
        delta: 1_000_000,
        reason: "dupe".to_string(),
        actor: "cheater".to_string(),
    });

    let found = l.audit_zero_sum();
    assert_eq!(found.len(), 1, "the imbalance must be detected");
    assert_eq!(found[0].imbalance, 1_000_000);
    assert_eq!(found[0].asset, "credits");
}

#[test]
fn the_balance_audit_catches_a_drifted_cache() {
    let (mut l, alice) = funded("alice", 100);
    l.balances.insert((alice.clone(), "credits".to_string()), 999_999);

    let drift = l.audit_balances_match_entries();
    assert_eq!(drift.len(), 1);
    assert_eq!(drift[0].0, alice);
    assert_eq!((drift[0].2, drift[0].3), (999_999, 100), "(cached, derived)");
}

#[test]
fn a_clean_ledger_audits_clean() {
    let l = Ledger::new();
    assert!(l.audit_zero_sum().is_empty());
    assert!(l.audit_balances_match_entries().is_empty());
}

#[test]
fn history_shows_both_sides_of_an_investigation() {
    let (mut l, alice) = funded("alice", 1000);
    let bob = Account::player("bob");
    l.transfer(req(alice.clone(), bob.clone(), 100, "t1")).unwrap();
    l.transfer(req(bob.clone(), alice.clone(), 30, "t2")).unwrap();

    let alice_entries: Vec<_> = l.history(&alice).into_iter().collect();
    assert_eq!(alice_entries.len(), 3, "seed in, 100 out, 30 in");
    let net: Amount = alice_entries.iter().map(|e| e.delta).sum();
    assert_eq!(net, 930);
}

#[test]
fn entries_record_who_and_why() {
    let mut l = Ledger::new();
    let alice = Account::player("alice");
    l.transfer(TransferRequest {
        idem_key: IdemKey::server("gm-1"),
        from: Account::Mint,
        to: alice.clone(),
        asset: "credits".to_string(),
        amount: 500,
        reason: "gm_grant".to_string(),
        actor: "gm:kate".to_string(),
        tick: 77,
    })
    .unwrap();

    let e = l.history(&alice).into_iter().next().unwrap();
    assert_eq!(e.reason, "gm_grant");
    assert_eq!(e.actor, "gm:kate");
    assert_eq!(e.tick, 77, "tick correlates the entry with a checkpoint");
    assert_eq!(e.counterparty, Account::Mint);
}

#[test]
fn items_are_ledgered_like_currency() {
    let mut l = Ledger::new();
    let alice = Account::player("alice");
    let bob = Account::player("bob");
    let sword = "item:sword_of_dawn";

    let mint = TransferRequest {
        idem_key: IdemKey::server("mint-sword"),
        from: Account::Mint,
        to: alice.clone(),
        asset: sword.to_string(),
        amount: 1,
        reason: "quest_reward".to_string(),
        actor: "system".to_string(),
        tick: 1,
    };
    l.transfer(mint).unwrap();

    let mut trade = req(alice.clone(), bob.clone(), 1, "trade-sword");
    trade.asset = sword.to_string();
    l.transfer(trade).unwrap();

    assert_eq!(l.balance(&alice, sword), 0, "alice no longer holds it");
    assert_eq!(l.balance(&bob, sword), 1, "bob does");
    assert_eq!(l.total_minted(sword), 1, "exactly one was ever created");
    assert!(l.audit_zero_sum().is_empty());
}

#[test]
fn assets_do_not_bleed_into_each_other() {
    let (mut l, alice) = funded("alice", 100);
    let mut ore = req(alice.clone(), Account::player("bob"), 5, "ore");
    ore.asset = "item:ore".to_string();

    assert!(l.transfer(ore).is_err());
    assert_eq!(l.balance(&alice, "credits"), 100);
}

#[test]
fn an_overflowing_transfer_is_refused() {
    let (mut l, _) = funded("alice", i64::MAX);
    let err = l.transfer(req(Account::Mint, Account::player("alice"), 1, "more")).unwrap_err();
    assert_eq!(err, LedgerError::Overflow);
    assert_eq!(err.message(), "transfer would overflow the amount type");
}

#[test]
fn ledger_errors_read_as_sentences() {
    let (mut l, alice) = funded("alice", 100);
    let err = l.transfer(req(alice.clone(), Account::Burn, 101, "t")).unwrap_err();
    assert_eq!(err.message(), "Player(\"alice\") has 100 credits, needs 101");
    let err = l.transfer(req(alice.clone(), alice.clone(), 1, "t")).unwrap_err();
    assert_eq!(err.message(), "transfer from Player(\"alice\") to itself");
    assert_eq!(
        LedgerError::NonPositiveAmount(-5).message(),
        "transfer amount must be positive, got -5",
    );
    assert_eq!(
        LedgerError::UnknownReservation.message(),
        "released a reservation that was never taken",
    );
    assert_eq!(
        LedgerError::WriterFailed("disk".to_string()).message(),
        "the ledger writer has failed: disk",
    );
    assert_eq!(
        LedgerError::WriterBehind { depth: 3, limit: 2 }.message(),
        "the ledger writer is behind: 3 transfers queued, limit 2",
    );
}

#[test]
fn a_receipt_says_where_the_entries_are() {
    let (mut l, alice) = funded("alice", 100);
    let r = l.transfer(req(alice, Account::Burn, 40, "t")).unwrap();
    assert_eq!((r.debit_seq, r.credit_seq, r.amount), (2, 3, 40));
    let again = l.receipt_for_inner(&IdemKey::server("t")).unwrap();
    assert_eq!(again, r);
    assert!(l.receipt_for_inner(&IdemKey::server("never")).is_none());
}

#[test]
fn keys_of_different_actions_differ() {
    assert_ne!(IdemKey::new("s", 1, "buy").as_str(), IdemKey::new("s", 1, "sell").as_str());
    assert_ne!(IdemKey::new("s", 1, "buy").as_str(), IdemKey::new("s", 2, "buy").as_str());
    assert!(Account::Mint.is_economy_boundary());
    assert!(Account::Burn.is_economy_boundary());
    assert!(!Account::player("alice").is_economy_boundary());
}

#[test]
fn a_release_undoes_exactly_its_own_hold() {
    let (mut l, alice) = funded("alice", 1000);
    let a = l.reserve(&alice, "credits", 100).unwrap();
    let b = l.reserve(&alice, "credits", 200).unwrap();
    assert_ne!(a, b);
    l.release(a).unwrap();
    assert_eq!(l.available(&alice, "credits"), 800);
    assert_eq!(l.release(a), Err(LedgerError::UnknownReservation));
    l.release(b).unwrap();
    assert_eq!(l.available(&alice, "credits"), 1000);
}

#[test]
fn the_memory_backend_keeps_the_store_contract() {
    let mut l = Ledger::new();
    let alice = Account::player("alice");
    let mut first = req(Account::Mint, alice.clone(), 70, "k");
    first.tick = 9;
    let stored = LedgerStore::transfer(&mut l, first.clone()).unwrap();
    assert_eq!(stored.durability, Durability::Memory);
    assert!(!stored.receipt.deduplicated);
    assert!(LedgerStore::transfer(&mut l, first).unwrap().receipt.deduplicated);
    assert_eq!(LedgerStore::balance(&l, &alice, "credits"), 70);
    assert_eq!(LedgerStore::available(&l, &alice, "credits"), 70);
    assert_eq!(LedgerStore::acked_tick(&l), 9);
    assert_eq!(LedgerStore::history(&l, &alice).len(), 1);
    assert_eq!(LedgerStore::total_minted(&l, "credits"), 70);
    assert!(LedgerStore::audit_zero_sum(&l).is_empty());
    let id = LedgerStore::reserve(&mut l, &alice, "credits", 30).unwrap();
    assert_eq!(LedgerStore::available(&l, &alice, "credits"), 40);
    LedgerStore::release(&mut l, id).unwrap();
    let found = LedgerStore::receipt_for(&l, &IdemKey::server("k")).unwrap();
    assert_eq!(found.durability, Durability::Memory);
}
