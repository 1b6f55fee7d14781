use void_engine::log::Level;
use void_engine::net::chunk::{
    send_chunked, send_reported, ChunkHint, ChunkResult, Chunkable, DatagramSink, SendOutcome,
    SendReport, MIN_DATAGRAM_BUDGET,
};

#[derive(Clone, Debug, PartialEq)]
struct TestItem {
    id: u32,
    pos: [f32; 2],
}

#[derive(Clone, Debug, PartialEq)]
struct TestPacket {
    tick: u32,
    is_header: bool,
    your_id: u32,
    bulk: Vec<u64>,
    items: Vec<TestItem>,
}

impl TestPacket {
    fn new(bulk: usize, items: usize) -> Self {
        Self {
            tick: 7,
            is_header: true,
            your_id: 42,
            bulk: (0..bulk as u64).collect(),
            items: (0..items as u32)
                .map(|i| TestItem { id: i, pos: [i as f32, -(i as f32)] })
                .collect(),
        }
    }
}

impl Chunkable for TestPacket {
    type Item = TestItem;
    fn items(&self) -> &[TestItem] { &self.items }
    fn rebuild(&self, items: &[TestItem], is_header: bool) -> Self {
        Self {
            tick: self.tick,
            is_header,
            your_id: self.your_id,
            bulk: if is_header { self.bulk.clone() } else { Vec::new() },
            items: items.to_vec(),
        }
    }
    fn rebuild_shed(&self, items: &[TestItem]) -> Self {
        Self {
            tick: self.tick,
            is_header: true,
            your_id: self.your_id,
            bulk: Vec::new(),
            items: items.to_vec(),
        }
    }
}

const SCALAR_CORE: usize = 12;
const PER_BULK: usize = 8;
const PER_ITEM: usize = 12;

fn encode(p: &TestPacket) -> Vec<u8> {
    vec![0u8; SCALAR_CORE + p.bulk.len() * PER_BULK + p.items.len() * PER_ITEM]
}

struct FakeSink {
    mtu: usize,
    sent: Vec<Vec<u8>>,
    close_after: Option<usize>,
    rejected: usize,
}

impl FakeSink {
    fn new(mtu: usize) -> Self {
        Self { mtu, sent: Vec::new(), close_after: None, rejected: 0 }
    }
}

impl DatagramSink for FakeSink {
    fn send(&mut self, bytes: Vec<u8>) -> SendOutcome {
        if let Some(n) = self.close_after {
            if self.sent.len() >= n { return SendOutcome::Closed; }
        }
        if bytes.len() > self.mtu {
            self.rejected += 1;
            return SendOutcome::TooLarge;
        }
        self.sent.push(bytes);
        SendOutcome::Sent
    }
    fn max_datagram_size(&self) -> Option<usize> { Some(self.mtu) }
}

fn shape(bytes: &[u8], expect_bulk: usize) -> usize {
    (bytes.len() - SCALAR_CORE - expect_bulk * PER_BULK) / PER_ITEM
}

fn run(sink: &mut FakeSink, p: &TestPacket) -> ChunkResult {
    send_chunked(sink, p, encode, &mut ChunkHint::new())
}

fn run_hinted(sink: &mut FakeSink, p: &TestPacket, hint: &mut ChunkHint) -> ChunkResult {
    send_chunked(sink, p, encode, hint)
}

#[test]
fn scalar_header_plus_one_item_fits_the_conservative_budget() {
    let p = TestPacket::new(0, 1);
    let len = encode(&p.rebuild_shed(&p.items)).len();
    assert!(
        len <= MIN_DATAGRAM_BUDGET,
        "shed header + 1 item is {len} B, over the {MIN_DATAGRAM_BUDGET} B floor; \
         send_chunked cannot split a header, so items would be dropped"
    );
}

#[test]
fn a_single_item_is_small() {
    let empty = encode(&TestPacket::new(0, 0)).len();
    let one   = encode(&TestPacket::new(0, 1)).len();
    assert!(one - empty < 128, "one item costs {} B", one - empty);
}

#[test]
fn chunk_a_packet_that_fits_is_sent_whole() {
    let mut sink = FakeSink::new(MIN_DATAGRAM_BUDGET);
    assert_eq!(run(&mut sink, &TestPacket::new(4, 10)), ChunkResult::Delivered);
    assert_eq!(sink.sent.len(), 1, "no chunking when it already fits");
}

#[test]
fn oversized_item_list_is_split_across_chunks() {
    let p = TestPacket::new(2, 64);
    let mut sink = FakeSink::new(200);
    assert_eq!(run(&mut sink, &p), ChunkResult::Delivered);
    assert!(sink.sent.len() > 1, "should have split");
    let total: usize = sink.sent.iter().enumerate()
        .map(|(i, b)| shape(b, if i == 0 { 2 } else { 0 }))
        .sum();
    assert_eq!(total, 64, "all items delivered");
}

#[test]
fn bulk_header_rides_only_the_first_chunk() {
    let p = TestPacket::new(8, 40);
    let mut sink = FakeSink::new(220);
    assert_eq!(run(&mut sink, &p), ChunkResult::Delivered);
    assert!(sink.sent.len() > 1);

    let first_len = sink.sent[0].len();
    let first_items = shape(&sink.sent[0], 8);
    assert_eq!(first_len, SCALAR_CORE + 8 * PER_BULK + first_items * PER_ITEM,
        "first chunk carries the bulk header");

    for (i, b) in sink.sent.iter().enumerate().skip(1) {
        let items = shape(b, 0);
        assert_eq!(b.len(), SCALAR_CORE + items * PER_ITEM,
            "continuation chunk {i} must carry no bulk header");
    }
}

#[test]
fn exactly_one_chunk_is_flagged_as_the_header() {
    let p = TestPacket::new(4, 40);
    let header = p.rebuild(&p.items[..1], true);
    let cont   = p.rebuild(&p.items[1..2], false);
    assert!(header.is_header && !header.bulk.is_empty());
    assert!(!cont.is_header && cont.bulk.is_empty(),
        "continuation chunks are flagged and blanked together");
}

#[test]
fn oversized_bulk_header_sheds_instead_of_losing_items() {
    let p = TestPacket::new(150, 6);
    let mut sink = FakeSink::new(200);
    assert_eq!(run(&mut sink, &p), ChunkResult::Delivered);

    let total: usize = sink.sent.iter().map(|b| shape(b, 0)).sum();
    assert_eq!(total, 6, "no item may be dropped to fit the header");
    for b in &sink.sent {
        let items = shape(b, 0);
        assert_eq!(b.len(), SCALAR_CORE + items * PER_ITEM,
            "shed chunks carry the scalar core only");
    }
}

#[test]
fn shedding_latches_for_the_rest_of_the_send() {
    let p = TestPacket::new(150, 12);
    let mut sink = FakeSink::new(60);
    assert_eq!(run(&mut sink, &p), ChunkResult::Delivered);
    assert!(sink.sent.len() >= 3);
    for b in &sink.sent {
        assert_eq!((b.len() - SCALAR_CORE) % PER_ITEM, 0, "no bulk anywhere");
    }
}

#[test]
fn item_less_packet_still_sheds() {
    let p = TestPacket::new(150, 0);
    let mut sink = FakeSink::new(200);
    assert_eq!(run(&mut sink, &p), ChunkResult::Delivered);
    assert_eq!(sink.sent.len(), 1);
    assert_eq!(sink.sent[0].len(), SCALAR_CORE);
}

#[test]
fn hopeless_packet_is_reported_undeliverable() {
    let p = TestPacket::new(4, 3);
    let mut sink = FakeSink::new(SCALAR_CORE + PER_ITEM - 1);
    assert_eq!(run(&mut sink, &p), ChunkResult::Undeliverable);
    assert!(sink.sent.is_empty());
}

#[test]
fn a_closed_connection_stops_the_send() {
    let p = TestPacket::new(2, 40);
    let mut sink = FakeSink::new(200);
    sink.close_after = Some(2);
    assert_eq!(run(&mut sink, &p), ChunkResult::Closed);
    assert_eq!(sink.sent.len(), 2, "gave up rather than retrying a dead link");
}

#[test]
fn closed_on_the_first_attempt_short_circuits() {
    let mut sink = FakeSink::new(MIN_DATAGRAM_BUDGET);
    sink.close_after = Some(0);
    assert_eq!(run(&mut sink, &TestPacket::new(0, 1)), ChunkResult::Closed);
}

#[test]
fn a_fresh_hint_reproduces_the_halving_only_policy() {
    let p = TestPacket::new(2, 64);

    let mut a = FakeSink::new(200);
    assert_eq!(run(&mut a, &p), ChunkResult::Delivered);

    let mut b = FakeSink::new(200);
    assert_eq!(run_hinted(&mut b, &p, &mut ChunkHint::new()), ChunkResult::Delivered);

    assert_eq!(a.sent.len(), b.sent.len(), "same datagram count");
    assert_eq!(a.sent, b.sent, "and byte-identical chunks");
}

#[test]
fn a_persistent_hint_converges_and_then_costs_nothing() {
    let p = TestPacket::new(2, 64);
    let mut hint = ChunkHint::new();

    let mut rejects = Vec::new();
    for _ in 0..12 {
        let mut sink = FakeSink::new(200);
        assert_eq!(run_hinted(&mut sink, &p, &mut hint), ChunkResult::Delivered);
        rejects.push(sink.rejected);
        let total: usize = sink.sent.iter().enumerate()
            .map(|(i, b)| shape(b, if i == 0 { 2 } else { 0 }))
            .sum();
        assert_eq!(total, 64, "all items delivered");
    }

    assert!(hint.is_converged(), "capacity must be pinned down: {hint:?}");
    assert_eq!(
        *rejects.last().unwrap(), 0,
        "a converged link must pay no rejections; sequence was {rejects:?}",
    );
}

#[test]
fn a_converged_hint_uses_fewer_datagrams_than_halving() {
    let p = TestPacket::new(2, 64);

    let mut cold = FakeSink::new(200);
    run(&mut cold, &p);

    let mut hint = ChunkHint::new();
    let mut warm = FakeSink::new(200);
    for _ in 0..12 {
        warm = FakeSink::new(200);
        run_hinted(&mut warm, &p, &mut hint);
    }

    assert!(
        warm.sent.len() < cold.sent.len(),
        "converged {} datagrams vs halving {}",
        warm.sent.len(), cold.sent.len(),
    );
}

#[test]
fn a_known_ceiling_skips_the_doomed_whole_packet_attempt() {
    let p = TestPacket::new(2, 64);
    let mut hint = ChunkHint::new();

    let mut first = FakeSink::new(200);
    run_hinted(&mut first, &p, &mut hint);
    let cold_rejects = first.rejected;

    let mut second = FakeSink::new(200);
    run_hinted(&mut second, &p, &mut hint);

    assert!(
        second.rejected < cold_rejects,
        "second send still paid {} rejections against {cold_rejects}",
        second.rejected,
    );
}

#[test]
fn a_shrinking_path_retracts_a_stale_floor() {
    let p = TestPacket::new(2, 64);
    let mut hint = ChunkHint::new();

    for _ in 0..8 {
        let mut sink = FakeSink::new(400);
        run_hinted(&mut sink, &p, &mut hint);
    }
    let roomy = hint.known_good().expect("something must have fitted");

    let mut tight = FakeSink::new(120);
    assert_eq!(run_hinted(&mut tight, &p, &mut hint), ChunkResult::Delivered);

    let cramped = hint.known_good().expect("a smaller size must now be known");
    assert!(cramped < roomy, "floor must retract from {roomy} to something smaller");

    let total: usize = tight.sent.iter().enumerate()
        .map(|(i, b)| shape(b, if i == 0 { 2 } else { 0 }))
        .sum();
    assert_eq!(total, 64);
}

#[test]
fn a_packet_that_always_fits_never_learns_a_ceiling() {
    let p = TestPacket::new(4, 10);
    let mut hint = ChunkHint::new();

    for _ in 0..5 {
        let mut sink = FakeSink::new(MIN_DATAGRAM_BUDGET);
        assert_eq!(run_hinted(&mut sink, &p, &mut hint), ChunkResult::Delivered);
        assert_eq!(sink.sent.len(), 1, "no chunking when it already fits");
        assert_eq!(sink.rejected, 0, "and no rejections either");
    }
    assert_eq!(hint.known_good(), Some(10));
}

#[test]
fn halving_converges_to_one_item_per_datagram() {
    let p = TestPacket::new(0, 9);
    let mut sink = FakeSink::new(SCALAR_CORE + PER_ITEM);
    assert_eq!(run(&mut sink, &p), ChunkResult::Delivered);
    assert_eq!(sink.sent.len(), 9, "one item per datagram");
    for b in &sink.sent { assert_eq!(shape(b, 0), 1); }
}

#[test]
fn every_item_arrives_in_order_at_every_mtu() {
    for mtu in 24..400 {
        let p = TestPacket::new(3, 20);
        let mut sink = FakeSink::new(mtu);
        let result = run(&mut sink, &p);
        if mtu < SCALAR_CORE + PER_ITEM {
            assert_eq!(result, ChunkResult::Undeliverable);
        } else {
            assert_eq!(result, ChunkResult::Delivered);
            let bytes: usize = sink.sent.iter().map(Vec::len).sum();
            let bulk = bytes - sink.sent.len() * SCALAR_CORE - 20 * PER_ITEM;
            assert!(bulk == 0 || bulk == 3 * PER_BULK);
        }
    }
}

#[test]
fn a_fresh_hint_knows_nothing() {
    let hint = ChunkHint::new();
    assert_eq!(hint.known_good(), None);
    assert!(!hint.is_converged());
}

#[test]
fn an_encoder_may_keep_state() {
    let p = TestPacket::new(2, 64);
    let mut sink = FakeSink::new(200);
    let mut calls = 0;
    let counted = |q: &TestPacket| {
        calls += 1;
        encode(q)
    };
    let result = send_chunked(&mut sink, &p, counted, &mut ChunkHint::new());
    assert_eq!(result, ChunkResult::Delivered);
    assert_eq!(calls, sink.sent.len() + sink.rejected, "one encode for one attempt");
}

/// Remembers the lengths that were refused before anything was taken.
struct RefusalSink {
    mtu: usize,
    refused: Vec<usize>,
    taken: Option<usize>,
}

impl DatagramSink for RefusalSink {
    fn send(&mut self, bytes: Vec<u8>) -> SendOutcome {
        if bytes.len() <= self.mtu {
            self.taken = self.taken.or(Some(bytes.len()));
            return SendOutcome::Sent;
        }
        if self.taken.is_none() {
            self.refused.push(bytes.len());
        }
        SendOutcome::TooLarge
    }
}

#[test]
fn what_was_refused_is_not_known_good() {
    let p = TestPacket::new(2, 64);
    let items = |len: usize| (len - SCALAR_CORE - 2 * PER_BULK) / PER_ITEM;
    for mtu in [60, 100, 200, 300, 500] {
        let mut hint = ChunkHint::new();
        run_hinted(&mut FakeSink::new(MIN_DATAGRAM_BUDGET), &p, &mut hint);
        assert_eq!(hint.known_good(), Some(64));
        let mut sink = RefusalSink { mtu, refused: Vec::new(), taken: None };
        send_chunked(&mut sink, &p, encode, &mut hint);
        let good = hint.known_good().unwrap();
        assert!(!sink.refused.is_empty());
        for len in &sink.refused {
            assert!(good < items(*len), "{good} is called good, {} was refused", items(*len));
        }
        assert!(good >= items(sink.taken.unwrap()), "what fitted is remembered");
    }
}

fn report(sink: &mut FakeSink, p: &TestPacket) -> SendReport {
    send_reported(sink, p, encode, &mut ChunkHint::new())
}

#[test]
fn a_send_that_fits_has_nothing_to_report() {
    let mut sink = FakeSink::new(MIN_DATAGRAM_BUDGET);
    let r = report(&mut sink, &TestPacket::new(4, 10));
    assert_eq!(
        r,
        SendReport { result: ChunkResult::Delivered, header_shed: false, dropped: 0 },
    );
    assert!(r.log_lines(sink.max_datagram_size(), "tick 7").is_empty());
}

#[test]
fn a_shed_header_is_a_warning() {
    let mut sink = FakeSink::new(200);
    let r = report(&mut sink, &TestPacket::new(150, 6));
    assert_eq!(r, SendReport { result: ChunkResult::Delivered, header_shed: true, dropped: 0 });
    assert_eq!(
        r.log_lines(sink.max_datagram_size(), "tick 7"),
        vec![(
            Level::Warn,
            "packet header exceeds datagram MTU (Some(200) B) for tick 7; \
             shedding bulk header fields to keep items".to_string(),
        )],
    );
}

#[test]
fn an_undeliverable_packet_is_an_error() {
    let mut sink = FakeSink::new(SCALAR_CORE + PER_ITEM - 1);
    let r = report(&mut sink, &TestPacket::new(4, 3));
    assert_eq!(
        r,
        SendReport { result: ChunkResult::Undeliverable, header_shed: true, dropped: 3 },
    );
    let lines = r.log_lines(None, "tick 7");
    assert_eq!(lines.len(), 2);
    assert_eq!(lines[0].0, Level::Warn);
    assert_eq!(
        lines[1],
        (
            Level::Error,
            "packet undeliverable: scalar header + 1 item exceeds datagram MTU (None B) for \
             tick 7; dropping 3 item(s)".to_string(),
        ),
    );
}

#[test]
fn an_undeliverable_header_is_an_error() {
    let mut sink = FakeSink::new(SCALAR_CORE - 1);
    let r = report(&mut sink, &TestPacket::new(4, 0));
    assert_eq!(
        r,
        SendReport { result: ChunkResult::Undeliverable, header_shed: false, dropped: 0 },
    );
    assert_eq!(
        r.log_lines(sink.max_datagram_size(), "tick 7"),
        vec![(
            Level::Error,
            "packet undeliverable: item-less shed header exceeds datagram MTU (Some(11) B) for \
             tick 7; dropping".to_string(),
        )],
    );
}
