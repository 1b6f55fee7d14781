//! What a rotating file logger decides: which records pass, what each line
//! looks like, what is relayed and dropped, when the file rotates, and what
//! the boot-time pusher sends.
//!
//! Every record that passes goes to `<log_name>` (rotated at 10 MB × 5) and
//! onto a bounded ring the game's net layer drains once per tick. The boot
//! pusher is strictly ERROR-level and opt-in: it captures start-up failures
//! that the normal relay would miss.
//!
//! Files, clocks, threads and the network are the caller's.

use crate::rotation;
use crate::text;
use std::collections::VecDeque;
use vstd::prelude::*;
use vstd::string::*;

verus! {

/// Rotated copies that are kept.
pub const MAX_LOGS: usize = 5;

/// Size past which the live file is rotated: 10 MB.
pub const MAX_LOG_SIZE: u64 = 10_485_760;

/// Events that the relay ring holds.
pub const RELAY_CAPACITY: usize = 2000;

/// How long the boot pusher waits for more before it sends what it has.
pub const BOOT_FLUSH_INTERVAL_MS: u64 = 2000;

/// Events that the boot pusher sends at once.
pub const BOOT_BATCH_MAX: usize = 32;

/// How bad it is, worst first.
#[derive(Copy, Clone, Debug, PartialEq, Eq, Structural)]
pub enum Level {
    Error,
    Warn,
    Info,
    Debug,
    Trace,
}

impl Level {
    /// The number that goes on the wire: 1 for the worst.
    pub open spec fn rank(self) -> u8 {
        match self {
            Level::Error => 1,
            Level::Warn => 2,
            Level::Info => 3,
            Level::Debug => 4,
            Level::Trace => 5,
        }
    }

    /// The name in capitals.
    pub open spec fn name(self) -> Seq<char> {
        match self {
            Level::Error => "ERROR"@,
            Level::Warn => "WARN"@,
            Level::Info => "INFO"@,
            Level::Debug => "DEBUG"@,
            Level::Trace => "TRACE"@,
        }
    }

    /// The name in small letters.
    pub open spec fn lower(self) -> Seq<char> {
        match self {
            Level::Error => "error"@,
            Level::Warn => "warn"@,
            Level::Info => "info"@,
            Level::Debug => "debug"@,
            Level::Trace => "trace"@,
        }
    }

    /// The number that goes on the wire.
    pub fn number(self) -> (n: u8)
        ensures
            n == self.rank(),
    {
        match self {
            Level::Error => 1,
            Level::Warn => 2,
            Level::Info => 3,
            Level::Debug => 4,
            Level::Trace => 5,
        }
    }
}

/// The name of a level in capitals.
pub fn level_str(l: Level) -> (s: &'static str)
    ensures
        s@ == l.name(),
{
    match l {
        Level::Error => "ERROR",
        Level::Warn => "WARN",
        Level::Info => "INFO",
        Level::Debug => "DEBUG",
        Level::Trace => "TRACE",
    }
}

fn level_lower(l: Level) -> (s: &'static str)
    ensures
        s@ == l.lower(),
{
    match l {
        Level::Error => "error",
        Level::Warn => "warn",
        Level::Info => "info",
        Level::Debug => "debug",
        Level::Trace => "trace",
    }
}

/// Serialisation-agnostic log record. Games map this into their transport
/// packet.
#[derive(Debug, PartialEq, Eq)]
pub struct LogEvent {
    pub level: u8,
    pub target: String,
    pub msg: String,
    pub ts_ms: u64,
}

impl Clone for LogEvent {
    fn clone(&self) -> (r: Self)
        ensures
            r == *self,
    {
        LogEvent {
            level: self.level,
            target: self.target.clone(),
            msg: self.msg.clone(),
            ts_ms: self.ts_ms,
        }
    }
}

// ---------------------------------------------------------------------------
// The relay ring.
// ---------------------------------------------------------------------------

/// A bounded ring between the logger and the net layer. When it is full the
/// oldest event makes room.
pub struct LogRelay {
    buf: VecDeque<LogEvent>,
    dropped: u64,
}

#[verifier::ext_equal]
pub struct RelayView {
    /// Queued events, oldest first.
    pub queued: Seq<LogEvent>,
    /// Events that made room for others.
    pub dropped: nat,
}

impl RelayView {
    /// A ring never holds more than it may.
    pub open spec fn wf(self) -> bool {
        self.queued.len() <= RELAY_CAPACITY && self.dropped <= u64::MAX
    }
}

/// A ring after an event was pushed.
pub open spec fn relayed(r: RelayView, e: LogEvent) -> RelayView {
    if r.queued.len() >= RELAY_CAPACITY {
        RelayView {
            queued: r.queued.drop_first().push(e),
            dropped: if r.dropped < u64::MAX {
                r.dropped + 1
            } else {
                r.dropped
            },
        }
    } else {
        RelayView { queued: r.queued.push(e), ..r }
    }
}

impl View for LogRelay {
    type V = RelayView;

    closed spec fn view(&self) -> RelayView {
        RelayView { queued: self.buf@, dropped: self.dropped as nat }
    }
}

impl Default for LogRelay {
    fn default() -> (r: Self)
        ensures
            r@ == (RelayView { queued: Seq::empty(), dropped: 0 }),
    {
        LogRelay::new()
    }
}

impl LogRelay {
    /// An empty ring.
    pub fn new() -> (r: Self)
        ensures
            r@ == (RelayView { queued: Seq::empty(), dropped: 0 }),
    {
        LogRelay { buf: VecDeque::new(), dropped: 0 }
    }

    /// How many events made room for others, ever.
    pub fn dropped(&self) -> (n: u64)
        ensures
            n == self@.dropped,
    {
        self.dropped
    }
}

/// Queue an event.
pub fn push_relay(relay: &mut LogRelay, evt: LogEvent)
    ensures
        final(relay)@ == relayed(old(relay)@, evt),
{
    if relay.buf.len() >= RELAY_CAPACITY {
        let _ = relay.buf.pop_front();
        if relay.dropped < u64::MAX {
            relay.dropped = relay.dropped + 1;
        }
    }
    relay.buf.push_back(evt);
}

/// Drain all queued log events. Called by the game's net layer once per tick
/// (or however often it batches log messages onto the wire).
pub fn drain_log_events(relay: &mut LogRelay) -> (events: Vec<LogEvent>)
    ensures
        events@ == old(relay)@.queued,
        final(relay)@ == (RelayView { queued: Seq::empty(), ..old(relay)@ }),
{
    let mut events: Vec<LogEvent> = Vec::new();
    let ghost all = relay.buf@;
    let ghost lost = relay.dropped;
    while relay.buf.len() > 0
        invariant
            events@.len() <= all.len(),
            events@ == all.take(events@.len() as int),
            relay.buf@ == all.skip(events@.len() as int),
            relay.dropped == lost,
        decreases relay.buf@.len(),
    {
        if let Some(e) = relay.buf.pop_front() {
            events.push(e);
        }
    }
    events
}

// ---------------------------------------------------------------------------
// Configuration.
// ---------------------------------------------------------------------------

/// How each record is written to the log file.
#[derive(Copy, Clone, Debug, PartialEq, Eq, Structural)]
pub enum LogFormat {
    /// `[2026-09-10 19:31:24] [ERROR] the message`
    ///
    /// Readable over someone's shoulder, lossy for a log pipeline: no target,
    /// no timezone, no sub-second precision.
    Human,
    /// `ts=2026-09-10T19:31:24.512Z level=error target=… msg="…"`
    ///
    /// Needs no serialisation dependency and stays greppable when you tail
    /// the file by hand.
    Logfmt,
}

impl Default for LogFormat {
    fn default() -> (f: Self)
        ensures
            f == LogFormat::Human,
    {
        LogFormat::Human
    }
}

/// Config for a [`RotatingLogger`] instance.
#[derive(Clone, Debug)]
pub struct LogConfig {
    /// Directory holding the rotated file set (created if missing), as shown.
    pub log_dir: String,
    /// Base file name (e.g. `"client.log"`).
    pub log_name: String,
    /// Substrings whose full message body is dropped before writing — tag
    /// known-noisy driver spam here so it doesn't bloat the log or the relay.
    pub noise: Vec<&'static str>,
    /// Log targets (crate / module prefixes) dropped at the `enabled` filter,
    /// before the record is even formatted.
    pub quiet_targets: Vec<&'static str>,
    /// Optional URL for the direct ERROR-only path. `None` disables the boot
    /// pusher entirely.
    pub boot_loki_url: Option<String>,
    /// `service` label for events shipped through the boot pusher.
    pub boot_service: &'static str,
    /// On-disk line format.
    pub format: LogFormat,
}

// ---------------------------------------------------------------------------
// Which records pass.
// ---------------------------------------------------------------------------

/// Whether a target begins with one of these.
pub open spec fn is_quiet(quiet: Seq<&'static str>, target: Seq<char>) -> bool {
    exists|i: int| 0 <= i < quiet.len() && text::stands_at(target, (#[trigger] quiet[i])@, 0)
}

/// Whether a record passes the filter. Quiet targets lose INFO, DEBUG and TRACE
/// only.
pub open spec fn passes(quiet: Seq<&'static str>, level: Level, target: Seq<char>) -> bool {
    level.rank() <= Level::Warn.rank() || !is_quiet(quiet, target)
}

/// Whether a message body holds one of these.
pub open spec fn is_noise(noise: Seq<&'static str>, body: Seq<char>) -> bool {
    exists|i: int| 0 <= i < noise.len() && text::is_within(body, (#[trigger] noise[i])@)
}

/// The white space of Unicode.
pub open spec fn is_white_space(c: char) -> bool {
    let n = c as int;
    ||| 0x9 <= n <= 0xd
    ||| n == 0x20
    ||| n == 0x85
    ||| n == 0xa0
    ||| n == 0x1680
    ||| 0x2000 <= n <= 0x200a
    ||| n == 0x2028
    ||| n == 0x2029
    ||| n == 0x202f
    ||| n == 0x205f
    ||| n == 0x3000
}

fn white_space(c: char) -> (r: bool)
    ensures
        r == is_white_space(c),
{
    let n: u32 = c as u32;
    (0x9 <= n && n <= 0xd) || n == 0x20 || n == 0x85 || n == 0xa0 || n == 0x1680 || (0x2000 <= n && n
        <= 0x200a) || n == 0x2028 || n == 0x2029 || n == 0x202f || n == 0x205f || n == 0x3000
}

// ---------------------------------------------------------------------------
// Logfmt.
// ---------------------------------------------------------------------------

/// A character of a quoted value.
pub open spec fn logfmt_char(c: char) -> Seq<char> {
    if c == '"' {
        seq!['\\', '"']
    } else if c == '\\' {
        seq!['\\', '\\']
    } else if c == '\n' {
        seq!['\\', 'n']
    } else if c == '\r' {
        seq!['\\', 'r']
    } else if c == '\t' {
        seq!['\\', 't']
    } else {
        seq![c]
    }
}

/// The characters of a quoted value.
pub open spec fn logfmt_escaped(v: Seq<char>) -> Seq<char>
    decreases v.len(),
{
    if v.len() == 0 {
        Seq::empty()
    } else {
        logfmt_escaped(v.drop_last()) + logfmt_char(v.last())
    }
}

/// Whether a value cannot stand bare.
pub open spec fn needs_quoting(v: Seq<char>) -> bool {
    exists|i: int|
        0 <= i < v.len() && (is_white_space(#[trigger] v[i]) || v[i] == '"' || v[i] == '=' || v[i]
            == '\\')
}

/// A value as it stands in a line.
pub open spec fn logfmt(v: Seq<char>) -> Seq<char> {
    if v.len() == 0 || needs_quoting(v) {
        seq!['"'] + logfmt_escaped(v) + seq!['"']
    } else {
        v
    }
}

/// Quote a logfmt value if it needs it.
///
/// Bare values are fine until they contain a space, a quote or a newline — a
/// message body contains all three sooner or later, and an unquoted one
/// silently truncates at the first space when parsed.
pub fn logfmt_value(v: &str) -> (s: String)
    ensures
        s@ == logfmt(v@),
{
    let chars = text::chars_of(v);
    let mut quote = chars.len() == 0;
    let mut i: usize = 0;
    while i < chars.len()
        invariant
            chars@ == v@,
            i <= chars@.len(),
            quote == (v@.len() == 0 || exists|j: int|
                0 <= j < i && (is_white_space(#[trigger] v@[j]) || v@[j] == '"' || v@[j] == '='
                    || v@[j] == '\\')),
        decreases chars@.len() - i,
    {
        let c: char = chars[i];
        let ghost had = quote;
        if white_space(c) || c == '"' || c == '=' || c == '\\' {
            quote = true;
        }
        proof {
            if had && v@.len() > 0 {
                let j = choose|j: int|
                    0 <= j < i && (is_white_space(#[trigger] v@[j]) || v@[j] == '"' || v@[j] == '='
                        || v@[j] == '\\');
            }
        }
        i = i + 1;
    }
    if !quote {
        return v.to_owned();
    }
    let mut out = String::new();
    out.push('"');
    let mut k: usize = 0;
    while k < chars.len()
        invariant
            chars@ == v@,
            k <= chars@.len(),
            out@ == seq!['"'] + logfmt_escaped(v@.take(k as int)),
        decreases chars@.len() - k,
    {
        let c: char = chars[k];
        if c == '"' {
            out.push('\\');
            out.push('"');
        } else if c == '\\' {
            out.push('\\');
            out.push('\\');
        } else if c == '\n' {
            out.push('\\');
            out.push('n');
        } else if c == '\r' {
            out.push('\\');
            out.push('r');
        } else if c == '\t' {
            out.push('\\');
            out.push('t');
        } else {
            out.push(c);
        }
        proof {
            let next = v@.take(k + 1);
            assert(next.drop_last() =~= v@.take(k as int));
        }
        k = k + 1;
    }
    assert(v@.take(k as int) =~= v@);
    out.push('"');
    out
}

// ---------------------------------------------------------------------------
// Lines.
// ---------------------------------------------------------------------------

/// The pattern of a timestamp for people.
pub open spec fn human_pattern() -> Seq<char> {
    "%Y-%m-%d %H:%M:%S"@
}

/// The pattern of a timestamp for a log pipeline: RFC3339 with milliseconds,
/// as whole seconds lose the order of everything that happens inside one tick.
pub open spec fn logfmt_pattern() -> Seq<char> {
    "%Y-%m-%dT%H:%M:%S%.3fZ"@
}

/// What chrono prints for an instant of UTC under a pattern, where the instant
/// is in its range.
pub uninterp spec fn utc_printed(secs: i64, nanos: u32, pattern: Seq<char>) -> Option<Seq<char>>;

/// `chrono::DateTime::<Utc>::from_timestamp`, then `DateTime::format` with one
/// of two patterns. The first gives an instant for every second from the epoch
/// to the end of the year 262142; what the second prints depends on the
/// instant and the pattern alone.
#[verifier::external_body]
fn utc_text(secs: i64, nanos: u32, pattern: &str) -> (r: Option<String>)
    requires
        pattern@ == human_pattern() || pattern@ == logfmt_pattern(),
    ensures
        match r {
            Some(s) => utc_printed(secs, nanos, pattern@) == Some(s@),
            None => utc_printed(secs, nanos, pattern@) is None,
        },
        0 <= secs <= 8_210_266_876_799 && nanos < 1_000_000_000 ==> r is Some,
{
    match chrono::DateTime::from_timestamp(secs, nanos) {
        Some(instant) => Some(instant.format(pattern).to_string()),
        None => None,
    }
}

/// A reading of the clock.
#[derive(Copy, Clone, Debug, PartialEq, Eq, Structural)]
pub struct Stamp {
    /// Whole seconds since the epoch.
    pub secs: i64,
    /// Nanoseconds beyond them.
    pub nanos: u32,
    /// Milliseconds since the epoch, as they are relayed.
    pub ms: u64,
}

impl Stamp {
    /// Whether the reading is one that can be printed.
    pub open spec fn in_range(self) -> bool {
        0 <= self.secs <= 8_210_266_876_799 && self.nanos < 1_000_000_000
    }
}

/// A record to log.
#[derive(Debug, PartialEq, Eq)]
pub struct LogRecord {
    pub level: Level,
    pub target: String,
    pub body: String,
}

/// A line for people, with its timestamp printed.
pub open spec fn human_line(ts: Seq<char>, level: Level, body: Seq<char>) -> Seq<char> {
    "["@ + ts + "] ["@ + level.name() + "] "@ + body
}

/// A line for a log pipeline, with its timestamp printed.
pub open spec fn logfmt_line(
    ts: Seq<char>,
    level: Level,
    target: Seq<char>,
    body: Seq<char>,
) -> Seq<char> {
    "ts="@ + ts + " level="@ + level.lower() + " target="@ + logfmt(target) + " msg="@ + logfmt(body)
}

/// The line of a record, with its timestamp printed.
pub open spec fn line_of(
    format: LogFormat,
    ts: Seq<char>,
    level: Level,
    target: Seq<char>,
    body: Seq<char>,
) -> Seq<char> {
    match format {
        LogFormat::Human => human_line(ts, level, body),
        LogFormat::Logfmt => logfmt_line(ts, level, target, body),
    }
}

/// The pattern of a format's timestamps.
pub open spec fn pattern_of(format: LogFormat) -> Seq<char> {
    match format {
        LogFormat::Human => human_pattern(),
        LogFormat::Logfmt => logfmt_pattern(),
    }
}

/// The line of a record whose timestamp is printed.
pub fn format_line(format: LogFormat, ts: &str, record: &LogRecord) -> (line: String)
    ensures
        line@ == line_of(format, ts@, record.level, record.target@, record.body@),
{
    match format {
        LogFormat::Human => {
            let mut line = "[".to_owned();
            line.append(ts);
            line.append("] [");
            line.append(level_str(record.level));
            line.append("] ");
            line.append(record.body.as_str());
            line
        },
        LogFormat::Logfmt => {
            let mut line = "ts=".to_owned();
            line.append(ts);
            line.append(" level=");
            line.append(level_lower(record.level));
            line.append(" target=");
            line.append(logfmt_value(record.target.as_str()).as_str());
            line.append(" msg=");
            line.append(logfmt_value(record.body.as_str()).as_str());
            line
        },
    }
}

/// An event for the boot pusher.
#[derive(Debug, PartialEq, Eq)]
pub struct BootEvent {
    pub ts_ns: u128,
    pub level: Level,
    pub line: String,
}

#[verifier::ext_equal]
pub struct BootEventView {
    pub ts_ns: nat,
    pub level: Level,
    pub line: Seq<char>,
}

impl View for BootEvent {
    type V = BootEventView;

    open spec fn view(&self) -> BootEventView {
        BootEventView { ts_ns: self.ts_ns as nat, level: self.level, line: self.line@ }
    }
}

/// What logging a record comes to.
#[derive(Debug, PartialEq, Eq)]
pub struct Emission {
    /// The line to append to the log file.
    pub line: String,
    /// The event to queue on the relay.
    pub event: LogEvent,
    /// The event to offer to the boot pusher, if one is running.
    pub boot: Option<BootEvent>,
}

/// A logger that rotates its file.
#[derive(Debug)]
pub struct RotatingLogger {
    pub cfg: LogConfig,
}

impl RotatingLogger {
    /// A logger.
    pub fn new(cfg: LogConfig) -> (l: Self)
        ensures
            l.cfg == cfg,
    {
        RotatingLogger { cfg }
    }

    /// Reject noisy dependencies **before** the record is formatted.
    ///
    /// Quiet targets lose INFO/DEBUG/TRACE only. WARN and ERROR still come
    /// through — surface loss, device lost and shader compile failures are
    /// exactly the things you need when the graphics stack misbehaves.
    pub fn enabled(&self, level: Level, target: &str) -> (r: bool)
        ensures
            r == passes(self.cfg.quiet_targets@, level, target@),
    {
        if level.number() <= Level::Warn.number() {
            return true;
        }
        let mut i: usize = 0;
        while i < self.cfg.quiet_targets.len()
            invariant
                i <= self.cfg.quiet_targets@.len(),
                level.rank() > Level::Warn.rank(),
                forall|j: int|
                    0 <= j < i ==> !text::stands_at(
                        target@,
                        (#[trigger] self.cfg.quiet_targets@[j])@,
                        0,
                    ),
            decreases self.cfg.quiet_targets@.len() - i,
        {
            if text::str_starts_with(target, self.cfg.quiet_targets[i]) {
                return false;
            }
            i = i + 1;
        }
        true
    }

    fn noisy(&self, body: &str) -> (r: bool)
        ensures
            r == is_noise(self.cfg.noise@, body@),
    {
        let mut i: usize = 0;
        while i < self.cfg.noise.len()
            invariant
                i <= self.cfg.noise@.len(),
                forall|j: int|
                    0 <= j < i ==> !text::is_within(body@, (#[trigger] self.cfg.noise@[j])@),
            decreases self.cfg.noise@.len() - i,
        {
            if text::str_contains(body, self.cfg.noise[i]) {
                return true;
            }
            i = i + 1;
        }
        false
    }

    /// What logging a record comes to. `None` where the record is rejected,
    /// or its body is noise.
    pub fn log(&self, record: &LogRecord, now: &Stamp) -> (r: Option<Emission>)
        requires
            now.in_range(),
        ensures
            r is Some == (passes(self.cfg.quiet_targets@, record.level, record.target@)
                && !is_noise(self.cfg.noise@, record.body@)),
            r matches Some(e) ==> {
                let ts = utc_printed(now.secs, now.nanos, pattern_of(self.cfg.format));
                &&& ts is Some
                &&& e.line@ == line_of(
                    self.cfg.format,
                    ts->0,
                    record.level,
                    record.target@,
                    record.body@,
                )
                &&& e.event.level == record.level.rank()
                &&& e.event.target == record.target
                &&& e.event.msg == record.body
                &&& e.event.ts_ms == now.ms
                &&& e.boot is Some == (record.level == Level::Error)
                &&& e.boot matches Some(b) ==> b@ == (BootEventView {
                    ts_ns: (now.ms * 1_000_000) as nat,
                    level: Level::Error,
                    line: record.body@,
                })
            },
    {
        // A direct call may have skipped the filter, so re-test rather than
        // trust the caller.
        if !self.enabled(record.level, record.target.as_str()) {
            return None;
        }
        if self.noisy(record.body.as_str()) {
            return None;
        }
        let pattern: &str = match self.cfg.format {
            LogFormat::Human => "%Y-%m-%d %H:%M:%S",
            LogFormat::Logfmt => "%Y-%m-%dT%H:%M:%S%.3fZ",
        };
        let line = match utc_text(now.secs, now.nanos, pattern) {
            Some(ts) => format_line(self.cfg.format, ts.as_str(), record),
            None => String::new(),
        };
        let boot = if record.level == Level::Error {
            Some(
                BootEvent {
                    ts_ns: (now.ms as u128) * 1_000_000,
                    level: record.level,
                    line: record.body.clone(),
                },
            )
        } else {
            None
        };
        Some(
            Emission {
                line,
                event: LogEvent {
                    level: record.level.number(),
                    target: record.target.clone(),
                    msg: record.body.clone(),
                    ts_ms: now.ms,
                },
                boot,
            },
        )
    }

    /// Whether the live file has outgrown [`MAX_LOG_SIZE`], by the length that
    /// its own handle reports.
    pub fn check_rotate(&self, len: Option<u64>) -> (r: bool)
        ensures
            r == (len is Some && len->0 > MAX_LOG_SIZE),
    {
        match len {
            Some(n) => n > MAX_LOG_SIZE,
            None => false,
        }
    }
}

/// The renames of a log rotation, in order. Each may fail. The live file's
/// handle is closed before the first and opened anew after the last, so that
/// later lines land in the live file.
pub fn rotate_logs(cfg: &LogConfig) -> (moves: Vec<(String, String)>)
    ensures
        rotation::rename_views(moves@) == rotation::renames(cfg.log_name@, MAX_LOGS as nat),
{
    rotation::rotation_moves(cfg.log_name.as_str(), MAX_LOGS)
}

// ---------------------------------------------------------------------------
// The boot pusher.
// ---------------------------------------------------------------------------

/// Text without the slashes at its end.
pub open spec fn without_slashes(s: Seq<char>) -> Seq<char>
    decreases s.len(),
{
    if s.len() > 0 && s.last() == '/' {
        without_slashes(s.drop_last())
    } else {
        s
    }
}

/// Where the boot pusher sends to.
pub fn boot_endpoint(loki_url: &str) -> (s: String)
    ensures
        s@ == without_slashes(loki_url@) + "/loki/api/v1/push"@,
{
    let chars = text::chars_of(loki_url);
    let mut n: usize = chars.len();
    assert(chars@.take(n as int) =~= loki_url@);
    while n > 0 && chars[n - 1] == '/'
        invariant
            n <= chars@.len(),
            chars@ == loki_url@,
            without_slashes(loki_url@) == without_slashes(chars@.take(n as int)),
        decreases n,
    {
        assert(chars@.take(n as int).drop_last() =~= chars@.take(n - 1));
        n = n - 1;
    }
    let mut s = String::new();
    let mut i: usize = 0;
    while i < n
        invariant
            i <= n <= chars@.len(),
            s@ == chars@.take(i as int),
        decreases n - i,
    {
        s.push(chars[i]);
        i = i + 1;
    }
    s.append("/loki/api/v1/push");
    s
}

/// The host label, from what the environment says of `COMPUTERNAME` and
/// `HOSTNAME`.
pub fn hostname(computer_name: Option<String>, host_name: Option<String>) -> (h: String)
    ensures
        match (computer_name, host_name) {
            (Some(c), _) => h == c,
            (None, Some(n)) => h == n,
            (None, None) => h@ == "unknown"@,
        },
{
    match computer_name {
        Some(c) => c,
        None => match host_name {
            Some(n) => n,
            None => "unknown".to_owned(),
        },
    }
}

/// What the boot pusher's channel came up with.
#[derive(Debug, PartialEq, Eq)]
pub enum BootHappened {
    /// An event arrived.
    Event(BootEvent),
    /// Nothing arrived in time.
    Timeout,
    /// The logger is gone.
    Disconnected,
}

/// What the boot pusher does next.
#[derive(Debug, PartialEq, Eq)]
pub struct BootTodo {
    /// Events to send now.
    pub flush: Option<Vec<BootEvent>>,
    /// Whether the wait for more starts over.
    pub restart_wait: bool,
    /// Whether the pusher ends.
    pub stop: bool,
}

/// Events waiting to be sent.
pub struct BootQueue {
    buf: Vec<BootEvent>,
}

impl View for BootQueue {
    type V = Seq<BootEvent>;

    closed spec fn view(&self) -> Seq<BootEvent> {
        self.buf@
    }
}

impl BootQueue {
    /// An empty queue.
    pub fn new() -> (q: Self)
        ensures
            q@ == Seq::<BootEvent>::empty(),
    {
        BootQueue { buf: Vec::new() }
    }

    /// Take in what happened: a full batch is sent at once, what there is when
    /// the wait is over or the logger is gone.
    pub fn step(&mut self, happened: BootHappened) -> (todo_now: BootTodo)
        ensures
            ({
                let waiting = match happened {
                    BootHappened::Event(e) => old(self)@.push(e),
                    _ => old(self)@,
                };
                let send = match happened {
                    BootHappened::Event(_) => waiting.len() >= BOOT_BATCH_MAX,
                    _ => waiting.len() > 0,
                };
                &&& match todo_now.flush {
                    Some(events) => send && events@ == waiting && final(self)@ == Seq::<
                        BootEvent,
                    >::empty(),
                    None => !send && final(self)@ == waiting,
                }
                &&& todo_now.restart_wait == (send && happened is Event || happened is Timeout)
                &&& todo_now.stop == (happened is Disconnected)
            }),
    {
        match happened {
            BootHappened::Event(e) => {
                self.buf.push(e);
                if self.buf.len() >= BOOT_BATCH_MAX {
                    BootTodo { flush: Some(self.take_all()), restart_wait: true, stop: false }
                } else {
                    BootTodo { flush: None, restart_wait: false, stop: false }
                }
            },
            BootHappened::Timeout => {
                if self.buf.len() > 0 {
                    BootTodo { flush: Some(self.take_all()), restart_wait: true, stop: false }
                } else {
                    BootTodo { flush: None, restart_wait: true, stop: false }
                }
            },
            BootHappened::Disconnected => {
                if self.buf.len() > 0 {
                    BootTodo { flush: Some(self.take_all()), restart_wait: false, stop: true }
                } else {
                    BootTodo { flush: None, restart_wait: false, stop: true }
                }
            },
        }
    }

    fn take_all(&mut self) -> (all: Vec<BootEvent>)
        ensures
            all@ == old(self)@,
            final(self)@ == Seq::<BootEvent>::empty(),
    {
        let mut all: Vec<BootEvent> = Vec::new();
        std::mem::swap(&mut all, &mut self.buf);
        all
    }
}

// ---------------------------------------------------------------------------
// The payload.
// ---------------------------------------------------------------------------

/// A character inside a JSON string.
pub open spec fn json_char(c: char) -> Seq<char> {
    if c == '"' {
        seq!['\\', '"']
    } else if c == '\\' {
        seq!['\\', '\\']
    } else if c == '\n' {
        seq!['\\', 'n']
    } else if c == '\r' {
        seq!['\\', 'r']
    } else if c == '\t' {
        seq!['\\', 't']
    } else if (c as int) < 0x20 {
        seq!['\\', 'u'] + text::fixed_hex(c as nat, 4)
    } else {
        seq![c]
    }
}

fn code_point(c: char) -> (n: u32)
    ensures
        n as int == c as int,
{
    c as u32
}

/// Text inside a JSON string.
pub open spec fn json_escaped(s: Seq<char>) -> Seq<char>
    decreases s.len(),
{
    if s.len() == 0 {
        Seq::empty()
    } else {
        json_escaped(s.drop_last()) + json_char(s.last())
    }
}

/// Append text for the inside of a JSON string.
pub fn push_json_escaped(out: &mut String, src: &str)
    ensures
        final(out)@ == old(out)@ + json_escaped(src@),
{
    let chars = text::chars_of(src);
    let ghost head = out@;
    let mut i: usize = 0;
    while i < chars.len()
        invariant
            chars@ == src@,
            i <= chars@.len(),
            out@ == head + json_escaped(src@.take(i as int)),
        decreases chars@.len() - i,
    {
        let c: char = chars[i];
        let code: u32 = code_point(c);
        if c == '"' {
            out.push('\\');
            out.push('"');
        } else if c == '\\' {
            out.push('\\');
            out.push('\\');
        } else if c == '\n' {
            out.push('\\');
            out.push('n');
        } else if c == '\r' {
            out.push('\\');
            out.push('r');
        } else if c == '\t' {
            out.push('\\');
            out.push('t');
        } else if code < 0x20 {
            out.push('\\');
            out.push('u');
            text::push_hex(out, code as u64, 4);
        } else {
            out.push(c);
        }
        proof {
            let next = src@.take(i + 1);
            assert(next.drop_last() =~= src@.take(i as int));
        }
        i = i + 1;
    }
    assert(src@.take(i as int) =~= src@);
}

/// Parts with commas between them.
pub open spec fn with_commas(parts: Seq<Seq<char>>) -> Seq<char>
    decreases parts.len(),
{
    if parts.len() == 0 {
        Seq::empty()
    } else if parts.len() == 1 {
        parts[0]
    } else {
        with_commas(parts.drop_last()).push(',') + parts.last()
    }
}

/// An event in the payload: its time and its line.
pub open spec fn value_text(e: BootEventView) -> Seq<char> {
    "[\""@ + text::decimal(e.ts_ns) + "\",\""@ + json_escaped(e.line) + "\"]"@
}

/// The events of one level, in order, as they stand in the payload.
pub open spec fn values_of(events: Seq<BootEventView>, level: Level) -> Seq<Seq<char>>
    decreases events.len(),
{
    if events.len() == 0 {
        Seq::empty()
    } else if events.last().level == level {
        values_of(events.drop_last(), level).push(value_text(events.last()))
    } else {
        values_of(events.drop_last(), level)
    }
}

/// One stream of the payload: its labels, then the events of one level.
pub open spec fn stream_text(
    host: Seq<char>,
    service: Seq<char>,
    level: Level,
    values: Seq<Seq<char>>,
) -> Seq<char> {
    "{\"stream\":{\"service\":\""@ + service + "\",\"host\":\""@ + json_escaped(host)
        + "\",\"level\":\""@ + level.name() + "\"},\"values\":["@ + with_commas(values) + "]}"@
}

/// The levels in the order of their names.
pub open spec fn levels_by_name() -> Seq<Level> {
    seq![Level::Debug, Level::Error, Level::Info, Level::Trace, Level::Warn]
}

/// The streams of the first `n` levels: one for each level that has events.
pub open spec fn streams_of(
    host: Seq<char>,
    service: Seq<char>,
    events: Seq<BootEventView>,
    n: nat,
) -> Seq<Seq<char>>
    decreases n,
{
    if n == 0 {
        Seq::empty()
    } else {
        let level = levels_by_name()[n - 1];
        let before = streams_of(host, service, events, (n - 1) as nat);
        if values_of(events, level).len() == 0 {
            before
        } else {
            before.push(stream_text(host, service, level, values_of(events, level)))
        }
    }
}

/// The body of a push: one stream per level, in the order of their names.
pub open spec fn payload(
    host: Seq<char>,
    service: Seq<char>,
    events: Seq<BootEventView>,
) -> Seq<char> {
    "{\"streams\":["@ + with_commas(streams_of(host, service, events, 5)) + "]}"@
}

/// Events by what they say.
pub open spec fn boot_views(events: Seq<BootEvent>) -> Seq<BootEventView> {
    events.map_values(|e: BootEvent| e@)
}

/// The events of one level, with commas between them, and how many they are.
fn level_values(events: &[BootEvent], level: Level) -> (r: (String, usize))
    ensures
        r.0@ == with_commas(values_of(boot_views(events@), level)),
        r.1 == values_of(boot_views(events@), level).len(),
{
    let mut s = String::new();
    let mut n: usize = 0;
    let mut i: usize = 0;
    let ghost views = boot_views(events@);
    assert(views.take(0) =~= Seq::<BootEventView>::empty());
    assert(s@ =~= with_commas(values_of(views.take(0), level)));
    while i < events.len()
        invariant
            i <= events@.len(),
            views == boot_views(events@),
            n <= i,
            n == values_of(views.take(i as int), level).len(),
            s@ == with_commas(values_of(views.take(i as int), level)),
        decreases events@.len() - i,
    {
        let e: &BootEvent = &events[i];
        let ghost had = values_of(views.take(i as int), level);
        proof {
            assert(views.take(i + 1).drop_last() =~= views.take(i as int));
            assert(views.take(i + 1).last() == e@);
        }
        if e.level == level {
            let ghost before = s@;
            if n > 0 {
                s.push(',');
            }
            let ghost sep = s@;
            s.append("[\"");
            text::push_decimal(&mut s, e.ts_ns);
            s.append("\",\"");
            push_json_escaped(&mut s, e.line.as_str());
            s.append("\"]");
            n = n + 1;
            proof {
                let now = had.push(value_text(e@));
                assert(s@ =~= sep + value_text(e@));
                assert(now.drop_last() =~= had);
                assert(s@ =~= with_commas(now));
            }
        }
        i = i + 1;
    }
    assert(views.take(i as int) =~= views);
    (s, n)
}

/// The body of a push to the boot endpoint.
#[verifier::rlimit(30)]
pub fn build_boot_payload(host: &str, service: &str, events: &[BootEvent]) -> (s: String)
    ensures
        s@ == payload(host@, service@, boot_views(events@)),
{
    let ghost views = boot_views(events@);
    let levels: [Level; 5] = [
        Level::Debug,
        Level::Error,
        Level::Info,
        Level::Trace,
        Level::Warn,
    ];
    let mut s = "{\"streams\":[".to_owned();
    let ghost head = s@;
    let mut first = true;
    let mut i: usize = 0;
    assert(levels@ =~= levels_by_name());
    assert(s@ =~= head + with_commas(streams_of(host@, service@, views, 0)));
    while i < 5
        invariant
            i <= 5,
            levels@ == levels_by_name(),
            views == boot_views(events@),
            first == (streams_of(host@, service@, views, i as nat).len() == 0),
            s@ == head + with_commas(streams_of(host@, service@, views, i as nat)),
        decreases 5 - i,
    {
        let level: Level = levels[i];
        let ghost had = streams_of(host@, service@, views, i as nat);
        let (values, n) = level_values(events, level);
        if n > 0 {
            if !first {
                s.push(',');
            }
            first = false;
            let ghost sep = s@;
            s.append("{\"stream\":{\"service\":\"");
            s.append(service);
            s.append("\",\"host\":\"");
            push_json_escaped(&mut s, host);
            s.append("\",\"level\":\"");
            s.append(level_str(level));
            s.append("\"},\"values\":[");
            s.append(values.as_str());
            s.append("]}");
            proof {
                let part = stream_text(host@, service@, level, values_of(views, level));
                let now = had.push(part);
                assert(s@ =~= sep + part);
                assert(now.drop_last() =~= had);
                assert(s@ =~= head + with_commas(now));
            }
        }
        i = i + 1;
    }
    s.append("]}");
    s
}

// ---------------------------------------------------------------------------
// Laws.
// ---------------------------------------------------------------------------

/// A quiet target is not muted: its warnings and errors come through, whatever
/// is on the list.
pub proof fn law_problems_always_come_through(
    quiet: Seq<&'static str>,
    level: Level,
    target: Seq<char>,
)
    requires
        level == Level::Warn || level == Level::Error,
    ensures
        passes(quiet, level, target),
{
}

/// With no quiet list nothing is filtered.
pub proof fn law_an_empty_list_filters_nothing(level: Level, target: Seq<char>)
    ensures
        passes(Seq::empty(), level, target),
{
}

/// The ring never outgrows its capacity, loses only its oldest event, and
/// always holds the newest.
pub proof fn law_the_ring_keeps_the_newest(r: RelayView, e: LogEvent)
    requires
        r.wf(),
    ensures
        relayed(r, e).wf(),
        relayed(r, e).queued.last() == e,
        relayed(r, e).queued == r.queued.push(e) || relayed(r, e).queued == r.queued.push(
            e,
        ).drop_first(),
        relayed(r, e).queued.len() < r.queued.len() + 1 <==> r.queued.len() == RELAY_CAPACITY,
{
}

/// What a reader of quoted text understands, from the front.
pub open spec fn unescaped(s: Seq<char>) -> Seq<char>
    decreases s.len(),
{
    if s.len() == 0 {
        Seq::empty()
    } else if s[0] == '\\' && s.len() > 1 {
        let c = if s[1] == 'n' {
            '\n'
        } else if s[1] == 'r' {
            '\r'
        } else if s[1] == 't' {
            '\t'
        } else {
            s[1]
        };
        seq![c] + unescaped(s.skip(2))
    } else {
        seq![s[0]] + unescaped(s.drop_first())
    }
}

/// What a reader of a logfmt value understands.
pub open spec fn logfmt_read(s: Seq<char>) -> Seq<char> {
    if s.len() >= 2 && s[0] == '"' {
        unescaped(s.subrange(1, s.len() - 1))
    } else {
        s
    }
}

proof fn lemma_escaped_front(v: Seq<char>)
    requires
        v.len() > 0,
    ensures
        logfmt_escaped(v) == logfmt_char(v[0]) + logfmt_escaped(v.drop_first()),
    decreases v.len(),
{
    if v.len() == 1 {
        assert(v.drop_last() =~= Seq::<char>::empty());
        assert(v.drop_first() =~= Seq::<char>::empty());
    } else {
        lemma_escaped_front(v.drop_last());
        assert(v.drop_last().drop_first() =~= v.drop_first().drop_last());
    }
}

proof fn lemma_unescape(v: Seq<char>)
    ensures
        unescaped(logfmt_escaped(v)) == v,
    decreases v.len(),
{
    if v.len() > 0 {
        let rest = v.drop_first();
        lemma_escaped_front(v);
        lemma_unescape(rest);
        let s = logfmt_escaped(v);
        let one = logfmt_char(v[0]);
        if one.len() == 2 {
            assert(s.skip(2) =~= logfmt_escaped(rest));
        } else {
            assert(s.drop_first() =~= logfmt_escaped(rest));
        }
    }
}

/// Nothing is lost to quoting: a reader of the line gets every value back.
pub proof fn law_a_logfmt_value_reads_back(v: Seq<char>)
    ensures
        logfmt_read(logfmt(v)) == v,
{
    let s = logfmt(v);
    if v.len() == 0 || needs_quoting(v) {
        assert(s.subrange(1, s.len() - 1) =~= logfmt_escaped(v));
        lemma_unescape(v);
    }
}

proof fn lemma_escaped_is_one_line(v: Seq<char>)
    ensures
        forall|i: int|
            0 <= i < logfmt_escaped(v).len() ==> (#[trigger] logfmt_escaped(v)[i]) != '\n'
                && logfmt_escaped(v)[i] != '\r',
    decreases v.len(),
{
    if v.len() > 0 {
        lemma_escaped_is_one_line(v.drop_last());
        let front = logfmt_escaped(v.drop_last());
        assert(forall|i: int|
            0 <= i < front.len() ==> #[trigger] logfmt_escaped(v)[i] == front[i]);
    }
}

/// One event stays one line: no value breaks it.
pub proof fn law_a_logfmt_value_is_one_line(v: Seq<char>, i: int)
    requires
        0 <= i < logfmt(v).len(),
    ensures
        logfmt(v)[i] != '\n' && logfmt(v)[i] != '\r',
{
    lemma_escaped_is_one_line(v);
}

/// The value of a hexadecimal digit.
pub open spec fn hex_value(c: char) -> int {
    if c as int >= 97 {
        c as int - 87
    } else {
        c as int - 48
    }
}

/// What a reader of JSON understands of the inside of a string, from the front.
pub open spec fn json_unescaped(s: Seq<char>) -> Seq<char>
    decreases s.len(),
{
    if s.len() == 0 {
        Seq::empty()
    } else if s[0] == '\\' && s.len() > 5 && s[1] == 'u' {
        let n = 4096 * hex_value(s[2]) + 256 * hex_value(s[3]) + 16 * hex_value(s[4]) + hex_value(
            s[5],
        );
        seq![n as char] + json_unescaped(s.skip(6))
    } else if s[0] == '\\' && s.len() > 1 {
        let c = if s[1] == 'n' {
            '\n'
        } else if s[1] == 'r' {
            '\r'
        } else if s[1] == 't' {
            '\t'
        } else {
            s[1]
        };
        seq![c] + json_unescaped(s.skip(2))
    } else {
        seq![s[0]] + json_unescaped(s.drop_first())
    }
}

proof fn lemma_json_front(v: Seq<char>)
    requires
        v.len() > 0,
    ensures
        json_escaped(v) == json_char(v[0]) + json_escaped(v.drop_first()),
    decreases v.len(),
{
    if v.len() == 1 {
        assert(v.drop_last() =~= Seq::<char>::empty());
        assert(v.drop_first() =~= Seq::<char>::empty());
    } else {
        lemma_json_front(v.drop_last());
        assert(v.drop_last().drop_first() =~= v.drop_first().drop_last());
    }
}

proof fn lemma_json_length(c: char)
    ensures
        json_char(c).len() == 1 || json_char(c).len() == 2 || json_char(c).len() == 6,
        json_char(c).len() == 6 ==> (c as int) < 0x20,
{
    reveal_with_fuel(text::fixed_hex, 5);
}

/// A control character in hexadecimal is that character.
proof fn lemma_json_control(c: char)
    requires
        json_char(c).len() == 6,
    ensures
        json_char(c)[0] == '\\',
        json_char(c)[1] == 'u',
        (4096 * hex_value(json_char(c)[2]) + 256 * hex_value(json_char(c)[3]) + 16 * hex_value(
            json_char(c)[4],
        ) + hex_value(json_char(c)[5])) as char == c,
{
    reveal_with_fuel(text::fixed_hex, 5);
    let n = c as nat;
}

/// Nothing is lost to escaping: a reader of the payload gets every text back.
pub proof fn law_json_text_reads_back(v: Seq<char>)
    ensures
        json_unescaped(json_escaped(v)) == v,
    decreases v.len(),
{
    if v.len() > 0 {
        let rest = v.drop_first();
        lemma_json_front(v);
        law_json_text_reads_back(rest);
        let s = json_escaped(v);
        let one = json_char(v[0]);
        lemma_json_length(v[0]);
        if one.len() == 2 {
            assert(s.skip(2) =~= json_escaped(rest));
        } else if one.len() == 1 {
            assert(s.drop_first() =~= json_escaped(rest));
        } else {
            lemma_json_control(v[0]);
            assert(s.skip(6) =~= json_escaped(rest));
        }
    }
}

/// A rotation of the log frees the live name, moves every copy but the oldest
/// one slot down, and touches no file beyond the set: the copies never number
/// more than [`MAX_LOGS`].
pub proof fn law_a_log_rotation_keeps_the_copies(dir: Map<Seq<char>, Seq<u8>>, name: Seq<char>)
    ensures
        ({
            let now = rotation::after_moves(
                dir,
                rotation::renames(name, MAX_LOGS as nat),
                MAX_LOGS as nat,
            );
            &&& !now.contains_key(rotation::slot(name, 0))
            &&& forall|i: nat|
                #![trigger rotation::slot(name, i)]
                i < MAX_LOGS && dir.contains_key(rotation::slot(name, i)) ==> now.contains_key(
                    rotation::slot(name, i + 1),
                ) && now[rotation::slot(name, i + 1)] == dir[rotation::slot(name, i)]
            &&& forall|f: Seq<char>|
                #![trigger now.contains_key(f)]
                #![trigger now[f]]
                !rotation::is_slot(name, MAX_LOGS as nat, f) ==> now.contains_key(f)
                    == dir.contains_key(f) && now[f] == dir[f]
        }),
{
    rotation::law_a_rotation_moves_every_copy_down(dir, name, MAX_LOGS as nat);
}

/// A target that begins with any entry of the quiet list is quiet: what
/// [`RotatingLogger::enabled`] answers for INFO, DEBUG and TRACE is no exactly
/// where some entry, the last no less than the first, is a prefix of the
/// target. WARN and ERROR are enabled whatever the target.
pub proof fn law_every_entry_of_the_quiet_list_counts(
    logger: &RotatingLogger,
    level: Level,
    target: &str,
    enabled: bool,
    i: int,
)
    requires
        call_ensures(RotatingLogger::enabled, (logger, level, target), enabled),
    ensures
        level is Warn || level is Error ==> enabled,
        !(level is Warn || level is Error) && 0 <= i < logger.cfg.quiet_targets@.len()
            && logger.cfg.quiet_targets@[i]@.is_prefix_of(target@) ==> !enabled,
        (forall|j: int|
            0 <= j < logger.cfg.quiet_targets@.len()
                ==> !(#[trigger] logger.cfg.quiet_targets@[j])@.is_prefix_of(target@)) ==> enabled,
{
    let quiet = logger.cfg.quiet_targets@;
    if 0 <= i < quiet.len() && quiet[i]@.is_prefix_of(target@) {
        assert(text::stands_at(target@, quiet[i]@, 0));
    }
    if is_quiet(quiet, target@) {
        let j = choose|j: int|
            0 <= j < quiet.len() && text::stands_at(target@, (#[trigger] quiet[j])@, 0);
        assert(quiet[j]@.is_prefix_of(target@));
    }
}

/// The same of the filter itself: below WARN a target passes exactly where no
/// entry of the list is a prefix of it.
pub proof fn law_any_quiet_prefix_mutes(
    quiet: Seq<&'static str>,
    level: Level,
    target: Seq<char>,
    i: int,
)
    requires
        level is Info || level is Debug || level is Trace,
    ensures
        0 <= i < quiet.len() && quiet[i]@.is_prefix_of(target) ==> !passes(quiet, level, target),
        (forall|j: int| 0 <= j < quiet.len() ==> !(#[trigger] quiet[j])@.is_prefix_of(target))
            ==> passes(quiet, level, target),
{
    if 0 <= i < quiet.len() && quiet[i]@.is_prefix_of(target) {
        assert(text::stands_at(target, quiet[i]@, 0));
    }
    if is_quiet(quiet, target) {
        let j = choose|j: int|
            0 <= j < quiet.len() && text::stands_at(target, (#[trigger] quiet[j])@, 0);
        assert(quiet[j]@.is_prefix_of(target));
    }
}

/// A longer list never lets more through: adding an entry, wherever it goes,
/// mutes the targets that begin with it and changes nothing for the others.
pub proof fn law_an_entry_mutes_only_its_targets(
    quiet: Seq<&'static str>,
    at: int,
    entry: &'static str,
    level: Level,
    target: Seq<char>,
)
    requires
        0 <= at <= quiet.len(),
        level is Info || level is Debug || level is Trace,
    ensures
        passes(quiet.insert(at, entry), level, target) == (passes(quiet, level, target)
            && !entry@.is_prefix_of(target)),
{
    let longer = quiet.insert(at, entry);
    assert(longer[at] == entry);
    law_any_quiet_prefix_mutes(longer, level, target, at);
    if is_quiet(quiet, target) {
        let j = choose|j: int|
            0 <= j < quiet.len() && text::stands_at(target, (#[trigger] quiet[j])@, 0);
        let k = if j < at {
            j
        } else {
            j + 1
        };
        assert(longer[k] == quiet[j]);
    }
    if is_quiet(longer, target) {
        let k = choose|k: int|
            0 <= k < longer.len() && text::stands_at(target, (#[trigger] longer[k])@, 0);
        assert(longer[k]@.is_prefix_of(target));
        if k != at {
            let j = if k < at {
                k
            } else {
                k - 1
            };
            assert(longer[k] == quiet[j]);
        }
    }
}

/// A record is logged unless its target is muted or its body holds one of the
/// noise texts, any of them, anywhere.
pub proof fn law_what_is_logged(
    logger: &RotatingLogger,
    record: &LogRecord,
    now: &Stamp,
    r: Option<Emission>,
    i: int,
    head: Seq<char>,
    tail: Seq<char>,
)
    requires
        now.in_range(),
        call_ensures(RotatingLogger::log, (logger, record, now), r),
    ensures
        0 <= i < logger.cfg.noise@.len() && record.body@ == head + logger.cfg.noise@[i]@ + tail
            ==> r is None,
        !(record.level is Warn || record.level is Error) && 0 <= i
            < logger.cfg.quiet_targets@.len() && logger.cfg.quiet_targets@[i]@.is_prefix_of(
            record.target@,
        ) ==> r is None,
        (record.level is Warn || record.level is Error || forall|j: int|
            0 <= j < logger.cfg.quiet_targets@.len()
                ==> !(#[trigger] logger.cfg.quiet_targets@[j])@.is_prefix_of(record.target@)) && (
        forall|j: int, k: int|
            0 <= j < logger.cfg.noise@.len() && 0 <= k && k + logger.cfg.noise@[j]@.len()
                <= record.body@.len() ==> #[trigger] record.body@.subrange(
                k,
                k + logger.cfg.noise@[j]@.len(),
            ) != logger.cfg.noise@[j]@) ==> r is Some,
{
    let noise = logger.cfg.noise@;
    let body = record.body@;
    if 0 <= i < noise.len() && body == head + noise[i]@ + tail {
        assert(body.subrange(head.len() as int, (head.len() + noise[i]@.len()) as int)
            =~= noise[i]@);
        assert(text::stands_at(body, noise[i]@, head.len() as int));
        assert(is_noise(noise, body));
    }
    if !(record.level is Warn || record.level is Error) {
        law_any_quiet_prefix_mutes(logger.cfg.quiet_targets@, record.level, record.target@, i);
    }
    if is_noise(noise, body) {
        let j = choose|j: int|
            0 <= j < noise.len() && text::is_within(body, (#[trigger] noise[j])@);
        let k = choose|k: int| #[trigger] text::stands_at(body, noise[j]@, k);
        assert(body.subrange(k, k + noise[j]@.len()) == noise[j]@);
    }
}

/// What is logged carries the record whole: its level as a number from 1, the
/// worst, to 5, its target, its body, and the time. Errors, and they alone, go
/// to the boot pusher, with the body and the time in nanoseconds.
pub proof fn law_an_emission_carries_its_record(
    logger: &RotatingLogger,
    record: &LogRecord,
    now: &Stamp,
    r: Option<Emission>,
)
    requires
        now.in_range(),
        call_ensures(RotatingLogger::log, (logger, record, now), r),
        r is Some,
    ensures
        r->0.event.target@ == record.target@,
        r->0.event.msg@ == record.body@,
        r->0.event.ts_ms == now.ms,
        r->0.event.level == 1 <==> record.level is Error,
        r->0.event.level == 2 <==> record.level is Warn,
        r->0.event.level == 3 <==> record.level is Info,
        r->0.event.level == 4 <==> record.level is Debug,
        r->0.event.level == 5 <==> record.level is Trace,
        r->0.boot is Some <==> record.level is Error,
        r->0.boot is Some ==> r->0.boot->0.line@ == record.body@ && r->0.boot->0.ts_ns
            == 1_000_000 * now.ms && r->0.boot->0.level is Error,
{
}

/// A line for people ends with the body as it is, and a line for a pipeline
/// with the body as a value; the timestamp stands in front, under the pattern
/// of the format.
pub proof fn law_a_line_holds_its_record(
    logger: &RotatingLogger,
    record: &LogRecord,
    now: &Stamp,
    r: Option<Emission>,
)
    requires
        now.in_range(),
        call_ensures(RotatingLogger::log, (logger, record, now), r),
        r is Some,
    ensures
        logger.cfg.format is Human ==> {
            let ts = utc_printed(now.secs, now.nanos, "%Y-%m-%d %H:%M:%S"@)->0;
            let names = seq!["ERROR"@, "WARN"@, "INFO"@, "DEBUG"@, "TRACE"@];
            r->0.line@ == "["@ + ts + "] ["@ + names[r->0.event.level - 1] + "] "@ + record.body@
        },
        logger.cfg.format is Logfmt ==> {
            let ts = utc_printed(now.secs, now.nanos, "%Y-%m-%dT%H:%M:%S%.3fZ"@)->0;
            let names = seq!["error"@, "warn"@, "info"@, "debug"@, "trace"@];
            r->0.line@ == "ts="@ + ts + " level="@ + names[r->0.event.level - 1] + " target="@
                + logfmt(record.target@) + " msg="@ + logfmt(record.body@)
        },
{
}

/// The file rotates when it has grown past ten megabytes, and not at that size.
pub proof fn law_a_file_may_reach_ten_megabytes(
    logger: &RotatingLogger,
    len: Option<u64>,
    rotate: bool,
)
    requires
        call_ensures(RotatingLogger::check_rotate, (logger, len), rotate),
    ensures
        rotate <==> (len is Some && len->0 > 10 * 1024 * 1024),
{
}

/// The five levels have different numbers, in the order of their weight, and
/// different names.
pub proof fn law_levels_are_told_apart(a: Level, b: Level)
    ensures
        a.rank() == b.rank() <==> a == b,
        1 <= a.rank() <= 5,
        a.name() == b.name() <==> a == b,
        a.lower() == b.lower() <==> a == b,
        a.name().len() == a.lower().len(),
        forall|i: int|
            0 <= i < a.name().len() ==> (#[trigger] a.name()[i]) as int + 32 == a.lower()[i] as int,
{
    reveal_strlit("ERROR");
    reveal_strlit("WARN");
    reveal_strlit("INFO");
    reveal_strlit("DEBUG");
    reveal_strlit("TRACE");
    reveal_strlit("error");
    reveal_strlit("warn");
    reveal_strlit("info");
    reveal_strlit("debug");
    reveal_strlit("trace");
    assert("ERROR"@[0] == 'E' && "WARN"@[0] == 'W' && "INFO"@[0] == 'I' && "DEBUG"@[0] == 'D'
        && "TRACE"@[0] == 'T');
    assert("error"@[0] == 'e' && "warn"@[0] == 'w' && "info"@[0] == 'i' && "debug"@[0] == 'd'
        && "trace"@[0] == 't');
}

/// A value stands bare exactly where it has characters and none of them is
/// white space, a quote, an equals sign or a backslash; any other value stands
/// between quotes.
pub proof fn law_a_bare_value_cannot_be_misread(v: Seq<char>)
    ensures
        logfmt(v) == v <==> (v.len() > 0 && forall|i: int|
            0 <= i < v.len() ==> !is_white_space(#[trigger] v[i]) && v[i] != '"' && v[i] != '='
                && v[i] != '\\'),
        logfmt(v) != v ==> logfmt(v).len() >= 2 && logfmt(v)[0] == '"' && logfmt(v).last() == '"',
{
    lemma_escaped_grows(v);
    if v.len() == 0 || needs_quoting(v) {
        assert(logfmt(v).len() > v.len());
    }
}

proof fn lemma_escaped_grows(v: Seq<char>)
    ensures
        logfmt_escaped(v).len() >= v.len(),
    decreases v.len(),
{
    if v.len() > 0 {
        lemma_escaped_grows(v.drop_last());
    }
}

/// Blanks, tabs and line ends are white space, and no printable character of
/// ASCII is.
pub proof fn law_white_space_cannot_be_seen(c: char)
    ensures
        c == ' ' || c == '\t' || c == '\n' || c == '\r' ==> is_white_space(c),
        0x21 <= c as int <= 0x7e ==> !is_white_space(c),
{
}

proof fn lemma_quotes_are_marked(v: Seq<char>)
    ensures
        forall|i: int|
            0 <= i < logfmt_escaped(v).len() && #[trigger] logfmt_escaped(v)[i] == '"' ==> i > 0
                && logfmt_escaped(v)[i - 1] == '\\',
    decreases v.len(),
{
    if v.len() > 0 {
        lemma_quotes_are_marked(v.drop_last());
        let front = logfmt_escaped(v.drop_last());
        let all = logfmt_escaped(v);
        let one = logfmt_char(v.last());
        assert forall|i: int| 0 <= i < all.len() && #[trigger] all[i] == '"' implies i > 0 && all[i
            - 1] == '\\' by {
            if i < front.len() {
                assert(all[i] == front[i]);
                assert(all[i - 1] == front[i - 1]);
            } else {
                assert(all[i] == one[i - front.len()]);
                if i - front.len() == 1 {
                    assert(all[i - 1] == one[0]);
                }
            }
        }
    }
}

/// Inside a quoted value no quote stands without a backslash before it.
pub proof fn law_a_quoted_value_ends_at_its_quote(v: Seq<char>, i: int)
    requires
        logfmt(v) != v,
        0 < i < logfmt(v).len() - 1,
        logfmt(v)[i] == '"',
    ensures
        i > 1,
        logfmt(v)[i - 1] == '\\',
{
    lemma_quotes_are_marked(v);
    let all = logfmt_escaped(v);
    assert(logfmt(v)[i] == all[i - 1]);
    assert(logfmt(v)[i - 1] == all[i - 2]);
}

/// A full ring counts what it loses: the oldest event goes, one is added to
/// the count while the count has room, and every event between stays in its
/// order. A ring with room loses nothing.
pub proof fn law_the_ring_counts_its_losses(r: RelayView, e: LogEvent, i: int)
    ensures
        r.queued.len() < RELAY_CAPACITY ==> relayed(r, e).dropped == r.dropped && relayed(
            r,
            e,
        ).queued.len() == r.queued.len() + 1,
        r.queued.len() < RELAY_CAPACITY && 0 <= i < r.queued.len() ==> relayed(r, e).queued[i]
            == r.queued[i],
        r.queued.len() >= RELAY_CAPACITY && r.dropped < u64::MAX ==> relayed(r, e).dropped
            == r.dropped + 1,
        r.queued.len() >= RELAY_CAPACITY && r.dropped >= u64::MAX ==> relayed(r, e).dropped
            == r.dropped,
        r.queued.len() >= RELAY_CAPACITY && 0 <= i < r.queued.len() - 1 ==> relayed(
            r,
            e,
        ).queued[i] == r.queued[i + 1],
        r.queued.len() >= RELAY_CAPACITY ==> relayed(r, e).queued.len() == r.queued.len(),
        RELAY_CAPACITY == 2000,
{
}

/// Only slashes at the end are taken off, and all of them.
pub proof fn law_only_trailing_slashes_go(s: Seq<char>, i: int)
    ensures
        without_slashes(s).is_prefix_of(s),
        without_slashes(s).len() == 0 || without_slashes(s).last() != '/',
        without_slashes(s).len() <= i < s.len() ==> s[i] == '/',
    decreases s.len(),
{
    if s.len() > 0 && s.last() == '/' {
        law_only_trailing_slashes_go(s.drop_last(), i);
        if 0 <= i < s.len() - 1 {
            assert(s.drop_last()[i] == s[i]);
        }
        let t = without_slashes(s.drop_last());
        assert(t =~= s.subrange(0, t.len() as int));
    } else {
        assert(s =~= s.subrange(0, s.len() as int));
    }
}

/// The boot pusher sends to the push path under the address it was given,
/// however many slashes the address ends with.
pub proof fn law_the_endpoint_is_under_the_address(
    url: &str,
    endpoint: String,
    base: Seq<char>,
    slashes: Seq<char>,
)
    requires
        call_ensures(boot_endpoint, (url,), endpoint),
        url@ == base + slashes,
        base.len() == 0 || base.last() != '/',
        forall|i: int| 0 <= i < slashes.len() ==> #[trigger] slashes[i] == '/',
    ensures
        endpoint@ == base + "/loki/api/v1/push"@,
{
    let kept = without_slashes(url@);
    law_only_trailing_slashes_go(url@, base.len() - 1);
    if kept.len() > base.len() {
        law_only_trailing_slashes_go(url@, kept.len() - 1);
        assert(kept.last() == url@[kept.len() - 1]);
        assert(url@[kept.len() - 1] == slashes[kept.len() - 1 - base.len()]);
    }
    if kept.len() < base.len() {
        assert(url@[base.len() - 1] == base.last());
    }
    assert(kept =~= base);
}

proof fn lemma_values_are_filtered(events: Seq<BootEventView>, level: Level)
    ensures
        values_of(events, level) == events.filter(|e: BootEventView| e.level == level).map_values(
            |e: BootEventView| value_text(e),
        ),
    decreases events.len(),
{
    reveal(Seq::filter);
    let keep = |e: BootEventView| e.level == level;
    let show = |e: BootEventView| value_text(e);
    if events.len() > 0 {
        lemma_values_are_filtered(events.drop_last(), level);
        let before = events.drop_last().filter(keep);
        if keep(events.last()) {
            assert(events.filter(keep) =~= before.push(events.last()));
            assert(before.push(events.last()).map_values(show) =~= before.map_values(show).push(
                show(events.last()),
            ));
        }
    } else {
        assert(events.filter(keep) =~= events);
        assert(values_of(events, level) =~= events.map_values(show));
    }
}

/// The values of a level are its events and no others, each once, in the order
/// in which they came.
pub proof fn law_a_stream_holds_the_events_of_its_level(
    events: Seq<BootEventView>,
    more: Seq<BootEventView>,
    e: BootEventView,
    level: Level,
)
    ensures
        values_of(events + more, level) == values_of(events, level) + values_of(more, level),
        e.level == level ==> values_of(seq![e], level) == seq![
            "[\""@ + text::decimal(e.ts_ns) + "\",\""@ + json_escaped(e.line) + "\"]"@,
        ],
        e.level != level ==> values_of(seq![e], level).len() == 0,
        events.contains(e) && e.level == level ==> values_of(events, level).contains(value_text(e)),
        values_of(Seq::empty(), level).len() == 0,
    decreases more.len(),
{
    let none = Seq::<BootEventView>::empty();
    assert(values_of(none, level).len() == 0);
    assert(seq![e].drop_last() =~= none);
    if more.len() == 0 {
        assert(events + more =~= events);
        assert(values_of(events, level) + values_of(more, level) =~= values_of(events, level));
    } else {
        law_a_stream_holds_the_events_of_its_level(events, more.drop_last(), e, level);
        assert((events + more).drop_last() =~= events + more.drop_last());
        let front = values_of(events, level);
        let middle = values_of(more.drop_last(), level);
        let last = value_text(more.last());
        assert(front + middle.push(last) =~= (front + middle).push(last));
    }
    if events.contains(e) && e.level == level {
        lemma_values_are_filtered(events, level);
        let keep = |x: BootEventView| x.level == level;
        events.lemma_filter_contains_rev(keep, e);
        let kept = events.filter(keep);
        assert(kept.contains(e));
        let k = choose|k: int| 0 <= k < kept.len() && kept[k] == e;
        assert(values_of(events, level)[k] == value_text(e));
    }
}

/// Commas stand between the parts of a list, none before the first and none
/// after the last.
pub proof fn law_commas_stand_between(parts: Seq<Seq<char>>, part: Seq<char>)
    ensures
        with_commas(Seq::empty()) == Seq::<char>::empty(),
        parts.len() == 0 ==> with_commas(parts.push(part)) == part,
        parts.len() > 0 ==> with_commas(parts.push(part)) == with_commas(parts) + seq![','] + part,
{
    assert(parts.push(part).drop_last() =~= parts);
    if parts.len() > 0 {
        assert(with_commas(parts).push(',') + part =~= with_commas(parts) + seq![','] + part);
    }
}

/// An event alone is pushed as one stream with one value: the service, the
/// host and the level are its labels.
pub proof fn law_an_event_is_pushed_under_its_labels(
    host: &str,
    service: &str,
    events: &[BootEvent],
    body: String,
    name: Seq<char>,
)
    requires
        call_ensures(build_boot_payload, (host, service, events), body),
        events@.len() == 1,
        name == (match events@[0].level {
            Level::Error => "ERROR"@,
            Level::Warn => "WARN"@,
            Level::Info => "INFO"@,
            Level::Debug => "DEBUG"@,
            Level::Trace => "TRACE"@,
        }),
    ensures
        body@ == "{\"streams\":["@ + ("{\"stream\":{\"service\":\""@ + service@
            + "\",\"host\":\""@ + json_escaped(host@) + "\",\"level\":\""@ + name
            + "\"},\"values\":["@ + ("[\""@ + text::decimal(events@[0].ts_ns as nat) + "\",\""@
            + json_escaped(events@[0].line@) + "\"]"@) + "]}"@) + "]}"@,
{
    let views = boot_views(events@);
    assert(views =~= seq![events@[0]@]);
    let own = events@[0].level;
    assert forall|level: Level| #[trigger] values_of(views, level) == (if level == own {
        seq![value_text(views[0])]
    } else {
        Seq::<Seq<char>>::empty()
    }) by {
        law_a_stream_holds_the_events_of_its_level(views, views, views[0], level);
        assert(values_of(views, level) =~= if level == own {
            seq![value_text(views[0])]
        } else {
            Seq::<Seq<char>>::empty()
        });
    }
    reveal_with_fuel(streams_of, 6);
    let stream = stream_text(host@, service@, own, seq![value_text(views[0])]);
    assert(streams_of(host@, service@, views, 5) =~= seq![stream]);
    assert(with_commas(seq![value_text(views[0])]) == value_text(views[0]));
    assert(with_commas(seq![stream]) == stream);
}

proof fn lemma_streams_by_level(
    host: Seq<char>,
    service: Seq<char>,
    events: Seq<BootEventView>,
    n: nat,
    k: int,
)
    requires
        n <= 5,
        0 <= k < n,
        values_of(events, levels_by_name()[k]).len() > 0,
    ensures
        streams_of(host, service, events, n).contains(
            stream_text(host, service, levels_by_name()[k], values_of(events, levels_by_name()[k])),
        ),
    decreases n,
{
    let before = streams_of(host, service, events, (n - 1) as nat);
    let all = streams_of(host, service, events, n);
    if k < n - 1 {
        lemma_streams_by_level(host, service, events, (n - 1) as nat, k);
        let s = stream_text(
            host,
            service,
            levels_by_name()[k],
            values_of(events, levels_by_name()[k]),
        );
        let i = choose|i: int| 0 <= i < before.len() && before[i] == s;
        assert(all[i] == s);
    } else {
        assert(all[all.len() - 1] == all.last());
    }
}

/// Every level that has events has its stream in a push.
pub proof fn law_no_level_is_left_out(
    host: Seq<char>,
    service: Seq<char>,
    events: Seq<BootEventView>,
    e: BootEventView,
)
    requires
        events.contains(e),
    ensures
        streams_of(host, service, events, 5).contains(
            stream_text(host, service, e.level, values_of(events, e.level)),
        ),
{
    law_a_stream_holds_the_events_of_its_level(events, Seq::empty(), e, e.level);
    let k: int = match e.level {
        Level::Debug => 0,
        Level::Error => 1,
        Level::Info => 2,
        Level::Trace => 3,
        Level::Warn => 4,
    };
    assert(levels_by_name()[k] == e.level);
    lemma_streams_by_level(host, service, events, 5, k);
}

/// The host is what the first name that the environment knows says.
pub proof fn law_the_first_name_known_is_the_host(
    computer: Option<String>,
    host: Option<String>,
    h: String,
)
    requires
        call_ensures(hostname, (computer, host), h),
    ensures
        computer is Some ==> h@ == computer->0@,
        computer is None && host is Some ==> h@ == host->0@,
        computer is None && host is None ==> h@ == "unknown"@,
{
}

/// What queueing an event does: it comes last, and where the ring was full the
/// oldest went, and is counted.
pub proof fn law_what_queueing_an_event_does(e: LogEvent)
    ensures
        forall|ring: &mut LogRelay| #[trigger]
            call_ensures(push_relay, (ring, e), ()) ==> {
                let (before, after) = (ring@, (*final(ring))@);
                &&& before.queued.len() < 2000 ==> after.queued == before.queued.push(e)
                    && after.dropped == before.dropped
                &&& before.queued.len() >= 2000 ==> after.queued == before.queued.push(
                    e,
                ).drop_first()
                &&& before.queued.len() >= 2000 && before.dropped < u64::MAX ==> after.dropped
                    == before.dropped + 1
            },
{
    assert forall|ring: &mut LogRelay| #[trigger]
        call_ensures(push_relay, (ring, e), ()) && ring@.queued.len() >= 2000 implies (
    *final(ring))@.queued == ring@.queued.push(e).drop_first() by {
        assert(ring@.queued.drop_first().push(e) =~= ring@.queued.push(e).drop_first());
    }
}

/// What draining does: every queued event comes out, oldest first, and none is
/// left; the count of losses stays.
pub proof fn law_what_draining_does(events: Vec<LogEvent>)
    ensures
        forall|ring: &mut LogRelay| #[trigger]
            call_ensures(drain_log_events, (ring,), events) ==> events@ == ring@.queued && (
            *final(ring))@.queued.len() == 0 && (*final(ring))@.dropped == ring@.dropped,
{
}

/// What an event does to the boot pusher: it waits behind the others, until
/// there are thirty-two, which are then sent together and the wait starts over.
pub proof fn law_events_are_sent_in_batches(e: BootEvent, t: BootTodo)
    ensures
        forall|q: &mut BootQueue| #[trigger]
            call_ensures(BootQueue::step, (q, BootHappened::Event(e)), t) ==> {
                let (before, after) = (q@, (*final(q))@);
                &&& before.len() < 31 ==> t.flush is None && !t.restart_wait && after
                    == before.push(e)
                &&& before.len() >= 31 ==> t.flush is Some && t.flush->0@ == before.push(e)
                    && t.restart_wait && after.len() == 0
                &&& !t.stop
            },
{
}

/// What the end of the wait does, and the end of the logger: whatever waits is
/// sent, in order; the one starts the wait over, and the other ends the pusher.
pub proof fn law_what_waits_is_sent_in_the_end(t: BootTodo)
    ensures
        forall|q: &mut BootQueue| #[trigger]
            call_ensures(BootQueue::step, (q, BootHappened::Timeout), t) ==> {
                &&& q@.len() > 0 ==> t.flush is Some && t.flush->0@ == q@
                &&& q@.len() == 0 ==> t.flush is None
                &&& (*final(q))@.len() == 0
                &&& t.restart_wait && !t.stop
            },
        forall|q: &mut BootQueue| #[trigger]
            call_ensures(BootQueue::step, (q, BootHappened::Disconnected), t) ==> {
                &&& q@.len() > 0 ==> t.flush is Some && t.flush->0@ == q@
                &&& q@.len() == 0 ==> t.flush is None
                &&& (*final(q))@.len() == 0
                &&& t.stop && !t.restart_wait
            },
{
}

proof fn lemma_json_is_clean(v: Seq<char>)
    ensures
        forall|i: int|
            0 <= i < json_escaped(v).len() ==> (#[trigger] json_escaped(v)[i]) as int >= 0x20 && (
            json_escaped(v)[i] == '"' ==> i > 0 && json_escaped(v)[i - 1] == '\\'),
    decreases v.len(),
{
    if v.len() > 0 {
        lemma_json_is_clean(v.drop_last());
        let front = json_escaped(v.drop_last());
        let one = json_char(v.last());
        let all = json_escaped(v);
        reveal_with_fuel(text::fixed_hex, 5);
        assert forall|i: int| 0 <= i < all.len() implies (#[trigger] all[i]) as int >= 0x20 && (
        all[i] == '"' ==> i > 0 && all[i - 1] == '\\') by {
            if i < front.len() {
                assert(all[i] == front[i]);
                if i > 0 {
                    assert(all[i - 1] == front[i - 1]);
                }
            } else {
                assert(all[i] == one[i - front.len()]);
                if i - front.len() == 1 {
                    assert(all[i - 1] == one[0]);
                }
            }
        }
    }
}

/// Inside a JSON string no control character stands as it is, and no quote
/// without a backslash before it. It goes behind what is there.
pub proof fn law_json_text_is_clean(src: &str, i: int)
    ensures
        0 <= i < json_escaped(src@).len() ==> json_escaped(src@)[i] as int >= 0x20,
        0 <= i < json_escaped(src@).len() && json_escaped(src@)[i] == '"' ==> i > 0
            && json_escaped(src@)[i - 1] == '\\',
        forall|out: &mut String| #[trigger]
            call_ensures(push_json_escaped, (out, src), ()) ==> {
                let (before, after) = (out@, (*final(out))@);
                after.take(before.len() as int) == before && json_unescaped(
                    after.skip(before.len() as int),
                ) == src@ && after.skip(before.len() as int) == json_escaped(src@)
            },
{
    lemma_json_is_clean(src@);
    law_json_text_reads_back(src@);
    assert forall|s: Seq<char>, t: Seq<char>|
        #![trigger s + t]
        (s + t).take(s.len() as int) == s && (s + t).skip(s.len() as int) == t by {
        assert((s + t).take(s.len() as int) =~= s);
        assert((s + t).skip(s.len() as int) =~= t);
    }
}

/// What a value and a level are written as, and a line of either format.
pub proof fn law_what_is_written_of_a_record(
    v: &str,
    value: String,
    level: Level,
    name: &'static str,
    format: LogFormat,
    ts: &str,
    record: &LogRecord,
    line: String,
)
    requires
        call_ensures(logfmt_value, (v,), value),
        call_ensures(level_str, (level,), name),
        call_ensures(format_line, (format, ts, record), line),
    ensures
        logfmt_read(value@) == v@,
        name@ == seq!["ERROR"@, "WARN"@, "INFO"@, "DEBUG"@, "TRACE"@][level.rank() - 1],
        format is Human ==> line@ == "["@ + ts@ + "] ["@ + record.level.name() + "] "@
            + record.body@,
        format is Logfmt ==> line@ == "ts="@ + ts@ + " level="@ + record.level.lower()
            + " target="@ + logfmt(record.target@) + " msg="@ + logfmt(record.body@),
{
    law_a_logfmt_value_reads_back(v@);
}

/// A rotation of the log moves its five newest files down one slot.
pub proof fn law_the_log_rotates_five_files(
    cfg: &LogConfig,
    moves: Vec<(String, String)>,
    i: int,
)
    requires
        call_ensures(rotate_logs, (cfg,), moves),
        0 <= i < 5,
    ensures
        moves@.len() == 5,
        moves@[4 - i].0@ == rotation::slot(cfg.log_name@, i as nat),
        moves@[4 - i].1@ == rotation::slot(cfg.log_name@, (i + 1) as nat),
{
    let j = 4 - i;
    assert(rotation::rename_views(moves@).len() == 5);
    assert(rotation::rename_views(moves@)[j] == rotation::renames(cfg.log_name@, 5)[j]);
    assert(rotation::rename_views(moves@)[j] == (moves@[j].0@, moves@[j].1@));
}

} // verus!
