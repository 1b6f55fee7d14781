use std::collections::HashMap;
use void_engine::log::{
    boot_endpoint, build_boot_payload, drain_log_events, format_line, hostname, level_str,
    logfmt_value, push_json_escaped, push_relay, rotate_logs, BootEvent, BootHappened, BootQueue,
    Level, LogConfig, LogEvent, LogFormat, LogRecord, LogRelay, RotatingLogger, Stamp,
    BOOT_BATCH_MAX, MAX_LOG_SIZE, RELAY_CAPACITY,
};

fn config(quiet: &[&'static str], noise: &[&'static str], format: LogFormat) -> LogConfig {
    LogConfig {
        log_dir: "logs".to_string(),
        log_name: "t.log".to_string(),
        noise: noise.to_vec(),
        quiet_targets: quiet.to_vec(),
        boot_loki_url: None,
        boot_service: "test",
        format,
    }
}

fn logger(quiet: &[&'static str]) -> RotatingLogger {
    RotatingLogger::new(config(quiet, &[], LogFormat::Human))
}

fn record(level: Level, target: &str, body: &str) -> LogRecord {
    LogRecord { level, target: target.to_string(), body: body.to_string() }
}

const NOON: Stamp = Stamp { secs: 1_789_068_684, nanos: 512_000_000, ms: 1_789_068_684_512 };

#[test]
fn a_bare_word_needs_no_quoting() {
    assert_eq!(logfmt_value("ledger"), "ledger");
    assert_eq!(logfmt_value("void_engine::persist"), "void_engine::persist");
}

#[test]
fn anything_with_a_space_is_quoted() {
    assert_eq!(logfmt_value("two words"), "\"two words\"");
}

#[test]
fn embedded_quotes_are_escaped_not_dropped() {
    assert_eq!(logfmt_value("say \"hi\""), "\"say \\\"hi\\\"\"");
}

#[test]
fn a_backslash_is_escaped() {
    assert_eq!(logfmt_value("C:\\path"), "\"C:\\\\path\"");
}

#[test]
fn newlines_become_escapes_so_one_event_stays_one_line() {
    assert_eq!(logfmt_value("a\nb"), "\"a\\nb\"");
    assert_eq!(logfmt_value("a\r\nb"), "\"a\\r\\nb\"");
    assert_eq!(logfmt_value("a\tb"), "\"a\\tb\"");
}

#[test]
fn an_equals_sign_is_quoted() {
    assert_eq!(logfmt_value("k=v"), "\"k=v\"");
}

#[test]
fn an_empty_value_is_an_explicit_empty_string() {
    assert_eq!(logfmt_value(""), "\"\"");
}

#[test]
fn an_event_key_survives_into_the_value() {
    let v = logfmt_value("event=ledger_reconciliation_failed books disagree");
    assert!(v.starts_with('"'), "a value with spaces must be quoted: {v}");
    assert!(v.contains("event=ledger_reconciliation_failed"), "{v}");
}

#[test]
fn quiet_targets_drop_their_info_chatter() {
    let l = logger(&["wgpu_core"]);
    assert!(!l.enabled(Level::Info, "wgpu_core::device"));
    assert!(!l.enabled(Level::Debug, "wgpu_core"));
    assert!(!l.enabled(Level::Trace, "wgpu_core"));
}

#[test]
fn quiet_targets_still_report_problems() {
    let l = logger(&["wgpu_core"]);
    assert!(l.enabled(Level::Warn, "wgpu_core::device"));
    assert!(l.enabled(Level::Error, "wgpu_core::device"));
}

#[test]
fn quiet_matching_is_by_target_prefix() {
    let l = logger(&["wgpu_core"]);
    assert!(!l.enabled(Level::Info, "wgpu_core::device::resource"));
    assert!(l.enabled(Level::Info, "void_claim::net"),
        "game targets must keep their INFO");
    assert!(l.enabled(Level::Info, "void_sim"));
}

#[test]
fn an_empty_quiet_list_filters_nothing() {
    let l = logger(&[]);
    assert!(l.enabled(Level::Info, "wgpu_core"));
    assert!(l.enabled(Level::Trace, "anything"));
}

/// A log directory in memory.
struct Files {
    held: HashMap<String, Vec<u8>>,
}

impl Files {
    fn say(&mut self, l: &RotatingLogger, msg: &str) {
        let Some(e) = l.log(&record(Level::Error, "test", msg), &NOON) else { return };
        if l.check_rotate(self.held.get("t.log").map(|f| f.len() as u64)) {
            for (from, to) in rotate_logs(&l.cfg) {
                if let Some(f) = self.held.remove(&from) {
                    self.held.insert(to, f);
                }
            }
        }
        let live = self.held.entry("t.log".to_string()).or_default();
        live.extend_from_slice(e.line.as_bytes());
        live.push(b'\n');
    }

    fn inflate(&mut self) {
        self.held.insert("t.log".to_string(), vec![b'x'; (MAX_LOG_SIZE as usize) + 1024]);
    }

    fn live(&self) -> String {
        String::from_utf8(self.held["t.log"].clone()).unwrap()
    }
}

#[test]
fn writes_land_in_the_live_file_after_rotation() {
    let l = logger(&[]);
    let mut files = Files { held: HashMap::new() };
    files.say(&l, "before");
    files.inflate();
    files.say(&l, "trigger");
    files.say(&l, "after-rotation");
    let live = files.live();
    assert!(live.contains("after-rotation"));
    assert!(live.len() < MAX_LOG_SIZE as usize);
    assert!(files.held.contains_key("t.log.1"), "the old file must be kept as .1");
}

#[test]
fn rotation_still_works_a_second_time() {
    let l = logger(&[]);
    let mut files = Files { held: HashMap::new() };
    files.inflate();
    files.say(&l, "first trigger");
    assert!(files.held.contains_key("t.log.1"), "first rotation");

    files.inflate();
    files.say(&l, "second trigger");
    assert!(files.held.contains_key("t.log.2"));
    assert!(files.held.contains_key("t.log"), "and the live file must still be there");
}

#[test]
fn a_small_file_does_not_rotate() {
    let l = logger(&[]);
    let mut files = Files { held: HashMap::new() };
    for i in 0..50 {
        files.say(&l, &format!("line {i}"));
    }
    assert!(!files.held.contains_key("t.log.1"), "nothing should have rotated");
    assert!(files.live().contains("line 49"));
}

#[test]
fn a_file_rotates_only_past_the_cap() {
    let l = logger(&[]);
    assert!(!l.check_rotate(None));
    assert!(!l.check_rotate(Some(0)));
    assert!(!l.check_rotate(Some(MAX_LOG_SIZE - 1)));
    assert!(l.check_rotate(Some(MAX_LOG_SIZE + 1)));
}

#[test]
fn a_human_line_reads_like_this() {
    let l = logger(&[]);
    let e = l.log(&record(Level::Error, "a::b", "the message"), &NOON).unwrap();
    assert_eq!(e.line, "[2026-09-10 19:31:24] [ERROR] the message");
    assert_eq!(e.event.target, "a::b");
    assert_eq!(e.event.msg, "the message");
    assert_eq!(e.event.level, 1);
    assert_eq!(e.event.ts_ms, 1_789_068_684_512);
}

#[test]
fn a_logfmt_line_reads_like_this() {
    let l = RotatingLogger::new(config(&[], &[], LogFormat::Logfmt));
    let e = l.log(&record(Level::Warn, "a::b", "the message"), &NOON).unwrap();
    assert_eq!(
        e.line,
        "ts=2026-09-10T19:31:24.512Z level=warn target=a::b msg=\"the message\""
    );
}

#[test]
fn a_line_takes_the_timestamp_as_printed() {
    let r = record(Level::Info, "t", "m");
    assert_eq!(format_line(LogFormat::Human, "noon", &r), "[noon] [INFO] m");
    assert_eq!(format_line(LogFormat::Logfmt, "noon", &r), "ts=noon level=info target=t msg=m");
}

#[test]
fn noise_is_dropped_whole() {
    let l = RotatingLogger::new(config(&[], &["driver spam"], LogFormat::Human));
    assert!(l.log(&record(Level::Error, "t", "some driver spam here"), &NOON).is_none());
    assert!(l.log(&record(Level::Error, "t", "driver fault"), &NOON).is_some());
}

#[test]
fn only_errors_are_offered_to_the_boot_pusher() {
    let l = logger(&[]);
    let e = l.log(&record(Level::Error, "t", "down"), &NOON).unwrap();
    let boot = e.boot.expect("an error is offered");
    assert_eq!(boot.level, Level::Error);
    assert_eq!(boot.line, "down");
    assert_eq!(boot.ts_ns, 1_789_068_684_512_000_000);
    assert!(l.log(&record(Level::Warn, "t", "hm"), &NOON).unwrap().boot.is_none());
}

fn event(msg: &str) -> LogEvent {
    LogEvent { level: 1, target: "t".to_string(), msg: msg.to_string(), ts_ms: 0 }
}

#[test]
fn the_relay_keeps_the_newest() {
    let mut relay = LogRelay::new();
    for i in 0..RELAY_CAPACITY + 3 {
        push_relay(&mut relay, event(&format!("{i}")));
    }
    assert_eq!(relay.dropped(), 3);
    let events = drain_log_events(&mut relay);
    assert_eq!(events.len(), RELAY_CAPACITY);
    assert_eq!(events[0].msg, "3");
    assert!(drain_log_events(&mut relay).is_empty());
}

#[test]
fn levels_are_named() {
    assert_eq!(level_str(Level::Trace), "TRACE");
    assert_eq!(level_str(Level::Error), "ERROR");
}

#[test]
fn the_boot_endpoint_has_one_slash() {
    assert_eq!(boot_endpoint("http://host:3100"), "http://host:3100/loki/api/v1/push");
    assert_eq!(boot_endpoint("http://host:3100//"), "http://host:3100/loki/api/v1/push");
}

#[test]
fn the_host_label_comes_from_the_environment() {
    let some = |s: &str| Some(s.to_string());
    assert_eq!(hostname(some("A"), some("b")), "A");
    assert_eq!(hostname(None, some("b")), "b");
    assert_eq!(hostname(None, None), "unknown");
}

fn boot(ts_ns: u128, level: Level, line: &str) -> BootEvent {
    BootEvent { ts_ns, level, line: line.to_string() }
}

#[test]
fn the_boot_queue_sends_in_batches() {
    let mut q = BootQueue::new();
    for _ in 1..BOOT_BATCH_MAX {
        let todo = q.step(BootHappened::Event(boot(1, Level::Error, "x")));
        assert!(todo.flush.is_none() && !todo.stop);
    }
    let todo = q.step(BootHappened::Event(boot(1, Level::Error, "x")));
    assert_eq!(todo.flush.unwrap().len(), BOOT_BATCH_MAX);
    assert!(q.step(BootHappened::Timeout).flush.is_none());
    q.step(BootHappened::Event(boot(1, Level::Error, "y")));
    let todo = q.step(BootHappened::Disconnected);
    assert_eq!(todo.flush.unwrap().len(), 1);
    assert!(todo.stop);
}

#[test]
fn json_text_is_escaped() {
    let mut out = String::new();
    push_json_escaped(&mut out, "a\"b\\c\nd\te\u{1}");
    assert_eq!(out, "a\\\"b\\\\c\\nd\\te\\u0001");
}

#[test]
fn a_boot_payload_groups_by_level() {
    let body = build_boot_payload(
        "h",
        "s",
        &[boot(5, Level::Warn, "w"), boot(6, Level::Error, "e1"), boot(7, Level::Error, "e2")],
    );
    assert_eq!(
        body,
        "{\"streams\":[{\"stream\":{\"service\":\"s\",\"host\":\"h\",\"level\":\"ERROR\"},\
         \"values\":[[\"6\",\"e1\"],[\"7\",\"e2\"]]},\
         {\"stream\":{\"service\":\"s\",\"host\":\"h\",\"level\":\"WARN\"},\
         \"values\":[[\"5\",\"w\"]]}]}"
    );
}
