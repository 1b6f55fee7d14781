use void_engine::persist::ledger::{Account, IdemKey, LedgerError, TransferRequest};
use void_engine::persist::ledger_pg::{
    account_from_parts, account_parts, already_written, LedgerRow, PgConfig, PgLedger,
};
use void_engine::persist::store::{Durability, LedgerStore};

fn req(from: Account, to: Account, amount: i64, key: &str, tick: u64) -> TransferRequest {
    TransferRequest {
        idem_key: IdemKey::server(key),
        from,
        to,
        asset: "credits".to_string(),
        amount,
        reason: "test".to_string(),
        actor: "system".to_string(),
        tick,
    }
}

fn fresh(cfg: &PgConfig) -> PgLedger {
    match PgLedger::open(cfg, &[], 0) {
        Ok(l) => l,
        Err(e) => panic!("an empty table must open: {e}"),
    }
}

fn alice() -> Account {
    Account::player("alice")
}

#[test]
fn the_defaults_are_generous_and_bounded() {
    let cfg = PgConfig::new("host=db");
    assert_eq!(cfg.url, "host=db");
    assert_eq!(cfg.max_journal, 10_000);
    assert_eq!(cfg.batch, 64);
}

#[test]
fn an_account_survives_its_columns() {
    for a in [alice(), Account::system("shop"), Account::Mint, Account::Burn] {
        let (kind, id) = account_parts(&a);
        assert_eq!(account_from_parts(&kind, &id), a);
    }
    assert_eq!(account_parts(&alice()), ("player".to_string(), "alice".to_string()));
    assert_eq!(account_from_parts("who knows", "x"), Account::Burn);
}

#[test]
fn only_a_unique_violation_counts_as_written() {
    assert!(already_written(Some("23505")));
    assert!(!already_written(Some("23503")));
    assert!(!already_written(None));
}

#[test]
fn a_transfer_is_pending_until_its_batch_commits() {
    let mut l = fresh(&PgConfig::new(""));
    let first = req(Account::Mint, alice(), 100, "k1", 5);
    let stored = l.transfer(first.clone()).unwrap();
    assert_eq!(stored.durability, Durability::Pending);
    assert_eq!(l.journal_depth(), 1);
    assert_eq!(l.flush(false), None, "not durable yet");

    let batch = l.next_batch(64).unwrap();
    assert_eq!(l.journal_depth(), 0);
    assert_eq!(l.flush(false), None, "an empty journal is not durability");
    assert_eq!(batch.acked_tick, 5);
    assert_eq!(batch.rows.len(), 2);
    assert_eq!(batch.rows[0].side, "d");
    assert_eq!(batch.rows[0].delta, -100);
    assert_eq!(batch.rows[0].account_kind, "mint");
    assert_eq!(batch.rows[1].side, "c");
    assert_eq!(batch.rows[1].account_id, "alice");
    assert_eq!(batch.rows[1].delta, 100);

    l.batch_committed();
    assert_eq!(l.flush(false), Some(Ok(())));
    assert_eq!(l.acked_tick(), 5);
    assert_eq!(l.transfer(first).unwrap().durability, Durability::Committed);
    assert_eq!(l.journal_depth(), 0, "a repeat is not journalled");
}

#[test]
fn a_batch_takes_the_oldest_transfers() {
    let mut l = fresh(&PgConfig::new(""));
    for i in 0..5u64 {
        l.transfer(req(Account::Mint, alice(), 1, &format!("k{i}"), i)).unwrap();
    }
    let batch = l.next_batch(2).unwrap();
    assert_eq!(batch.rows.len(), 4);
    assert_eq!(batch.rows[0].idem_key, "k0");
    assert_eq!(batch.acked_tick, 1);
    assert_eq!(l.journal_depth(), 3);
    l.batch_committed();
    assert_eq!(l.acked_tick(), 1);
    assert_eq!(l.next_batch(64).unwrap().rows.len(), 6);
    l.batch_committed();
    assert!(l.next_batch(64).is_none());
}

#[test]
fn a_failed_batch_goes_back_and_stops_the_ledger() {
    let mut l = fresh(&PgConfig::new(""));
    l.transfer(req(Account::Mint, alice(), 1, "a", 1)).unwrap();
    l.transfer(req(Account::Mint, alice(), 1, "b", 2)).unwrap();
    assert!(l.next_batch(1).is_some());
    l.batch_failed("connection reset");
    assert_eq!(l.journal_depth(), 2);
    assert_eq!(
        l.flush(false),
        Some(Err("ledger writer failed: connection reset".to_string())),
    );
    let err = l.transfer(req(Account::Mint, alice(), 1, "c", 3)).unwrap_err();
    assert_eq!(
        err,
        LedgerError::WriterFailed("ledger writer failed: connection reset".to_string()),
    );
    assert!(l.next_batch(64).is_none());
}

#[test]
fn a_full_journal_refuses() {
    let mut cfg = PgConfig::new("");
    cfg.max_journal = 2;
    let mut l = fresh(&cfg);
    l.transfer(req(Account::Mint, alice(), 1, "a", 1)).unwrap();
    l.transfer(req(Account::Mint, alice(), 1, "b", 1)).unwrap();
    let err = l.transfer(req(Account::Mint, alice(), 1, "c", 1)).unwrap_err();
    assert_eq!(err, LedgerError::WriterBehind { depth: 2, limit: 2 });
    assert_eq!(l.balance(&alice(), "credits"), 2);
}

#[test]
fn a_flush_that_takes_too_long_says_so() {
    let mut l = fresh(&PgConfig::new(""));
    l.transfer(req(Account::Mint, alice(), 1, "a", 1)).unwrap();
    assert_eq!(l.flush(true), Some(Err("timed out waiting for the writer".to_string())));
}

#[test]
fn a_restart_finds_what_was_committed() {
    let cfg = PgConfig::new("");
    let mut l = fresh(&cfg);
    let mut table: Vec<LedgerRow> = Vec::new();
    l.transfer(req(Account::Mint, alice(), 100, "a", 1)).unwrap();
    l.transfer(req(alice(), Account::player("bob"), 30, "b", 2)).unwrap();
    let batch = l.next_batch(64).unwrap();
    table.extend(batch.rows);
    l.batch_committed();
    l.transfer(req(alice(), Account::Burn, 50, "c", 3)).unwrap();

    let mut again = match PgLedger::open(&cfg, &table, 2) {
        Ok(l) => l,
        Err(e) => panic!("a written log must replay: {e}"),
    };
    assert_eq!(again.balance(&alice(), "credits"), 70, "the outstanding transfer is lost");
    assert_eq!(again.acked_tick(), 2);
    assert_eq!(again.core_ledger().entries().len(), 4);
    assert!(again.audit_zero_sum().is_empty());
    let repeat = again.transfer(req(Account::Mint, alice(), 100, "a", 1)).unwrap();
    assert!(repeat.receipt.deduplicated);
    assert_eq!(repeat.durability, Durability::Committed);
    assert_eq!(
        again.receipt_for(&IdemKey::server("b")).unwrap().durability,
        Durability::Committed,
    );
}

#[test]
fn a_log_that_disagrees_does_not_open() {
    let row = LedgerRow {
        idem_key: "over".to_string(),
        side: "d".to_string(),
        tick: 1,
        account_kind: "player".to_string(),
        account_id: "alice".to_string(),
        counterparty_kind: "burn".to_string(),
        counterparty_id: String::new(),
        asset: "credits".to_string(),
        delta: -5,
        reason: "r".to_string(),
        actor: "a".to_string(),
    };
    match PgLedger::open(&PgConfig::new(""), &[row], 0) {
        Ok(_) => panic!("an overdraft must not replay"),
        Err(e) => assert_eq!(
            e,
            "replaying entry \"over\" (seq order 0): Player(\"alice\") has 0 credits, needs 5",
        ),
    }
}

#[test]
fn holds_and_history_work_on_the_durable_ledger() {
    let mut l = fresh(&PgConfig::new(""));
    l.transfer(req(Account::Mint, alice(), 100, "a", 1)).unwrap();
    let id = l.reserve(&alice(), "credits", 80).unwrap();
    assert_eq!(l.available(&alice(), "credits"), 20);
    assert!(l.transfer(req(alice(), Account::Burn, 30, "b", 1)).is_err());
    l.release(id).unwrap();
    assert!(l.transfer(req(alice(), Account::Burn, 30, "b", 1)).is_ok());
    assert_eq!(l.history(&alice()).len(), 2);
    assert_eq!(l.total_minted("credits"), 100);
}

#[test]
fn the_watermark_waits_for_the_whole_tick() {
    let mut l = fresh(&PgConfig::new(""));
    for i in 0..3u64 {
        l.transfer(req(Account::Mint, alice(), 1, &format!("four{i}"), 4)).unwrap();
    }
    for i in 0..3u64 {
        l.transfer(req(Account::Mint, alice(), 1, &format!("five{i}"), 5)).unwrap();
    }
    let batch = l.next_batch(4).unwrap();
    assert_eq!(batch.acked_tick, 4, "tick 5 is only begun");
    l.batch_committed();
    assert_eq!(l.acked_tick(), 4);
    assert_eq!(l.next_batch(1).unwrap().acked_tick, 4);
    l.batch_committed();
    assert_eq!(l.acked_tick(), 4);
    assert_eq!(l.next_batch(64).unwrap().acked_tick, 5);
    l.batch_committed();
    assert_eq!(l.acked_tick(), 5);
}

#[test]
fn a_transfer_accepted_during_a_commit_holds_the_watermark() {
    let mut l = fresh(&PgConfig::new(""));
    l.transfer(req(Account::Mint, alice(), 1, "a", 6)).unwrap();
    assert_eq!(l.next_batch(64).unwrap().acked_tick, 6);
    l.transfer(req(Account::Mint, alice(), 1, "b", 6)).unwrap();
    l.batch_committed();
    assert_eq!(l.acked_tick(), 5, "tick 6 still has something outstanding");
    assert!(l.next_batch(64).is_some());
    l.batch_committed();
    assert_eq!(l.acked_tick(), 6);
}

#[test]
fn a_receipt_is_as_durable_as_its_rows() {
    let mut l = fresh(&PgConfig::new(""));
    l.transfer(req(Account::Mint, alice(), 1, "a", 3)).unwrap();
    l.transfer(req(Account::Mint, alice(), 1, "b", 7)).unwrap();
    assert!(l.next_batch(1).is_some());
    l.batch_committed();
    let durability = |l: &PgLedger, key: &str| {
        l.receipt_for(&IdemKey::server(key)).unwrap().durability
    };
    assert_eq!(durability(&l, "a"), Durability::Committed);
    assert_eq!(durability(&l, "b"), Durability::Pending);
    assert!(l.receipt_for(&IdemKey::server("c")).is_none());
    // The tick of a repeat says nothing about the transfer it repeats.
    let repeat = l.transfer(req(Account::Mint, alice(), 1, "b", 0)).unwrap();
    assert!(repeat.receipt.deduplicated);
    assert_eq!(repeat.durability, Durability::Pending);
    let repeat = l.transfer(req(Account::Mint, alice(), 1, "a", 99)).unwrap();
    assert_eq!(repeat.durability, Durability::Committed);
}

#[test]
fn a_repeat_is_answered_while_the_writer_is_behind() {
    let mut cfg = PgConfig::new("");
    cfg.max_journal = 1;
    let mut l = fresh(&cfg);
    let first = l.transfer(req(Account::Mint, alice(), 5, "a", 1)).unwrap();
    assert!(!first.receipt.deduplicated);
    let repeat = l.transfer(req(Account::Mint, alice(), 5, "a", 1)).unwrap();
    assert!(repeat.receipt.deduplicated);
    assert_eq!(repeat.receipt.debit_seq, first.receipt.debit_seq);
    assert_eq!(repeat.durability, Durability::Pending);
    assert_eq!(l.journal_depth(), 1);
    assert_eq!(l.balance(&alice(), "credits"), 5);
    let err = l.transfer(req(Account::Mint, alice(), 5, "b", 1)).unwrap_err();
    assert_eq!(err, LedgerError::WriterBehind { depth: 1, limit: 1 });
}

#[test]
fn a_repeat_is_answered_after_the_writer_died() {
    let mut l = fresh(&PgConfig::new(""));
    l.transfer(req(Account::Mint, alice(), 5, "a", 1)).unwrap();
    assert!(l.next_batch(64).is_some());
    l.batch_committed();
    l.transfer(req(Account::Mint, alice(), 7, "b", 2)).unwrap();
    assert!(l.next_batch(64).is_some());
    l.batch_failed("connection reset");
    let written = l.transfer(req(Account::Mint, alice(), 5, "a", 1)).unwrap();
    assert!(written.receipt.deduplicated);
    assert_eq!(written.durability, Durability::Committed);
    let waiting = l.transfer(req(Account::Mint, alice(), 7, "b", 2)).unwrap();
    assert!(waiting.receipt.deduplicated);
    assert_eq!(waiting.durability, Durability::Pending);
    assert_eq!(l.balance(&alice(), "credits"), 12);
    assert!(l.transfer(req(Account::Mint, alice(), 1, "c", 3)).is_err());
}
