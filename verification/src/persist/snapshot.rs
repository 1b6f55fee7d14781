//! Capturing a world and putting it back exactly as it was.
//!
//! # What "exactly" means
//!
//! Not "an equivalent world" — the *same* world. Entity ids, generations and
//! the free list are reproduced verbatim, because a saved id that renumbers
//! on load is a dangling reference in every other record that mentioned it.
//! So the allocator is captured as data.
//!
//! Component columns are stored with their holes intact for the same reason.
//!
//! # What is not here
//!
//! No file IO: a [`Snapshot`] is bytes in memory. And no storage of
//! components: the world hands over its slots as plain arrays, and encodes
//! and installs columns through the functions it passes in.

use crate::persist::registry;
use crate::persist::registry::{
    Entry, NameId, Persist, Registry, RegistryError, RegistryErrorView, RegistryView, Replicate,
};
use crate::rng::Pcg32;
use crate::text;
use std::any::TypeId;
use vstd::hash_map::StringHashMap;
use vstd::prelude::*;
use vstd::string::*;

verus! {

/// Bumped when the *envelope* changes shape — the header, the column framing,
/// the ordering. Per-component schema evolution is versioned separately, per
/// entry in the registry.
pub const FORMAT_VERSION: u32 = 1;

/// The entity allocator of a world, as data.
#[derive(Debug, PartialEq, Eq)]
pub struct Slots {
    pub generations: Vec<u32>,
    pub alive: Vec<bool>,
    pub free_list: Vec<u32>,
}

#[verifier::ext_equal]
pub struct SlotsView {
    pub generations: Seq<u32>,
    pub alive: Seq<bool>,
    pub free_list: Seq<u32>,
}

impl View for Slots {
    type V = SlotsView;

    open spec fn view(&self) -> SlotsView {
        SlotsView {
            generations: self.generations@,
            alive: self.alive@,
            free_list: self.free_list@,
        }
    }
}

impl Clone for Slots {
    fn clone(&self) -> (r: Self)
        ensures
            r@ == self@,
    {
        let r = Slots {
            generations: self.generations.clone(),
            alive: self.alive.clone(),
            free_list: self.free_list.clone(),
        };
        r
    }
}

/// One persisted component type.
#[derive(Debug, PartialEq, Eq)]
pub struct Column {
    /// The registry *name* — never a type id or a type path.
    pub name: String,
    /// The component's schema version at save time.
    pub version: u32,
    pub bytes: Vec<u8>,
}

#[verifier::ext_equal]
pub struct ColumnView {
    pub name: Seq<char>,
    pub version: u32,
    pub bytes: Seq<u8>,
}

impl View for Column {
    type V = ColumnView;

    open spec fn view(&self) -> ColumnView {
        ColumnView { name: self.name@, version: self.version, bytes: self.bytes@ }
    }
}

/// Columns by what they say.
pub open spec fn column_views(cs: Seq<Column>) -> Seq<ColumnView> {
    cs.map_values(|c: Column| c@)
}

/// Named stream positions by what they say.
pub open spec fn stream_views(rs: Seq<(String, u64, u64)>) -> Seq<(Seq<char>, u64, u64)> {
    rs.map_values(|r: (String, u64, u64)| (r.0@, r.1, r.2))
}

/// A captured world, ready to encode.
#[derive(Debug, PartialEq, Eq)]
pub struct Snapshot {
    pub format_version: u32,
    /// Simulation tick this was taken at. A checkpoint may not claim a tick
    /// ahead of what durable storage has acknowledged.
    pub tick: u64,
    /// Named RNG streams, captured as `(state, inc)` positions rather than
    /// seeds.
    pub rng: Vec<(String, u64, u64)>,
    pub slots: Slots,
    /// One entry per persisted component type.
    pub columns: Vec<Column>,
}

#[verifier::ext_equal]
pub struct SnapshotView {
    pub format_version: u32,
    pub tick: u64,
    pub rng: Seq<(Seq<char>, u64, u64)>,
    pub slots: SlotsView,
    pub columns: Seq<ColumnView>,
}

impl View for Snapshot {
    type V = SnapshotView;

    open spec fn view(&self) -> SnapshotView {
        SnapshotView {
            format_version: self.format_version,
            tick: self.tick,
            rng: stream_views(self.rng@),
            slots: self.slots@,
            columns: column_views(self.columns@),
        }
    }
}

/// Why a snapshot could not be taken or restored.
#[derive(Debug, PartialEq, Eq)]
pub enum SnapshotError {
    /// The envelope is from a newer engine. Refused deliberately: loading it
    /// would mean silently discarding fields this build cannot see.
    FutureFormat { found: u32, supported: u32 },
    /// A component in the snapshot is not registered in this build, and no
    /// alias covers it.
    UnknownComponent(String),
    /// A registered component's schema is older or newer than the snapshot's.
    SchemaMismatch { name: String, found: u32, expected: u32 },
    /// The allocator arrays contradict each other.
    Corrupt(String),
    /// Encoding or decoding failed.
    Codec(String),
}

#[allow(inconsistent_fields)]
pub enum SnapshotErrorView {
    FutureFormat { found: nat, supported: nat },
    UnknownComponent(Seq<char>),
    SchemaMismatch { name: Seq<char>, found: nat, expected: nat },
    Corrupt(Seq<char>),
    Codec(Seq<char>),
}

impl View for SnapshotError {
    type V = SnapshotErrorView;

    open spec fn view(&self) -> SnapshotErrorView {
        match self {
            SnapshotError::FutureFormat { found, supported } => SnapshotErrorView::FutureFormat {
                found: *found as nat,
                supported: *supported as nat,
            },
            SnapshotError::UnknownComponent(n) => SnapshotErrorView::UnknownComponent(n@),
            SnapshotError::SchemaMismatch { name, found, expected } => {
                SnapshotErrorView::SchemaMismatch {
                    name: name@,
                    found: *found as nat,
                    expected: *expected as nat,
                }
            },
            SnapshotError::Corrupt(why) => SnapshotErrorView::Corrupt(why@),
            SnapshotError::Codec(e) => SnapshotErrorView::Codec(e@),
        }
    }
}

impl Clone for SnapshotError {
    fn clone(&self) -> (r: Self)
        ensures
            r == *self,
    {
        match self {
            SnapshotError::FutureFormat { found, supported } => SnapshotError::FutureFormat {
                found: *found,
                supported: *supported,
            },
            SnapshotError::UnknownComponent(n) => SnapshotError::UnknownComponent(n.clone()),
            SnapshotError::SchemaMismatch { name, found, expected } => {
                SnapshotError::SchemaMismatch {
                    name: name.clone(),
                    found: *found,
                    expected: *expected,
                }
            },
            SnapshotError::Corrupt(why) => SnapshotError::Corrupt(why.clone()),
            SnapshotError::Codec(e) => SnapshotError::Codec(e.clone()),
        }
    }
}

impl SnapshotErrorView {
    /// The sentence shown for each error.
    pub open spec fn text(self) -> Seq<char> {
        match self {
            SnapshotErrorView::FutureFormat { found, supported } => "snapshot format "@
                + text::decimal(found) + " is newer than supported "@ + text::decimal(supported),
            SnapshotErrorView::UnknownComponent(n) => "snapshot names component "@
                + text::debug_quoted(n) + ", which is not registered"@,
            SnapshotErrorView::SchemaMismatch { name, found, expected } => "component "@
                + text::debug_quoted(name) + " schema "@ + text::decimal(found) + " != expected "@
                + text::decimal(expected),
            SnapshotErrorView::Corrupt(why) => "snapshot is inconsistent: "@ + why,
            SnapshotErrorView::Codec(e) => "codec: "@ + e,
        }
    }
}

impl SnapshotError {
    /// A human-readable description of the error.
    pub fn message(&self) -> (s: String)
        ensures
            s@ == self@.text(),
    {
        match self {
            SnapshotError::FutureFormat { found, supported } => {
                let mut s = "snapshot format ".to_owned();
                text::push_decimal(&mut s, *found as u128);
                s.append(" is newer than supported ");
                text::push_decimal(&mut s, *supported as u128);
                s
            },
            SnapshotError::UnknownComponent(n) => {
                let mut s = "snapshot names component ".to_owned();
                s.append(text::quoted(n.as_str()).as_str());
                s.append(", which is not registered");
                s
            },
            SnapshotError::SchemaMismatch { name, found, expected } => {
                let mut s = "component ".to_owned();
                s.append(text::quoted(name.as_str()).as_str());
                s.append(" schema ");
                text::push_decimal(&mut s, *found as u128);
                s.append(" != expected ");
                text::push_decimal(&mut s, *expected as u128);
                s
            },
            SnapshotError::Corrupt(why) => {
                let mut s = "snapshot is inconsistent: ".to_owned();
                s.append(why.as_str());
                s
            },
            SnapshotError::Codec(e) => {
                let mut s = "codec: ".to_owned();
                s.append(e.as_str());
                s
            },
        }
    }
}

// ---------------------------------------------------------------------------
// Random streams.
// ---------------------------------------------------------------------------

/// Named RNG streams to capture alongside the world.
///
/// A simulation typically has several — worldgen, loot, AI — and each must
/// resume at its own position. Keyed by name so adding a stream does not
/// invalidate existing snapshots.
pub struct RngStreams<'a> {
    streams: Vec<(&'a str, &'a Pcg32)>,
}

/// The streams with their positions, in the order they were added.
pub open spec fn stream_positions(ss: Seq<(&str, &Pcg32)>) -> Seq<(Seq<char>, u64, u64)> {
    ss.map_values(|s: (&str, &Pcg32)| (s.0@, s.1@.0, s.1@.1))
}

impl<'a> View for RngStreams<'a> {
    type V = Seq<(Seq<char>, u64, u64)>;

    closed spec fn view(&self) -> Seq<(Seq<char>, u64, u64)> {
        stream_positions(self.streams@)
    }
}

impl<'a> Default for RngStreams<'a> {
    fn default() -> (r: Self)
        ensures
            r@ == Seq::<(Seq<char>, u64, u64)>::empty(),
    {
        RngStreams::new()
    }
}

impl<'a> RngStreams<'a> {
    /// No streams.
    pub fn new() -> (r: Self)
        ensures
            r@ == Seq::<(Seq<char>, u64, u64)>::empty(),
    {
        let r = RngStreams { streams: Vec::new() };
        r
    }

    /// Add a stream under a name.
    pub fn add(self, name: &'a str, rng: &'a Pcg32) -> (r: Self)
        ensures
            r@ == self@.push((name@, rng@.0, rng@.1)),
    {
        let mut streams = self.streams;
        let ghost before = streams@;
        streams.push((name, rng));
        assert(stream_positions(streams@) =~= stream_positions(before).push(
            (name@, rng@.0, rng@.1),
        ));
        RngStreams { streams }
    }

    /// The positions, to save.
    fn positions(&self) -> (out: Vec<(String, u64, u64)>)
        ensures
            stream_views(out@) == self@,
    {
        let mut out: Vec<(String, u64, u64)> = Vec::new();
        let mut i: usize = 0;
        while i < self.streams.len()
            invariant
                i <= self.streams@.len(),
                stream_views(out@) =~= self@.take(i as int),
            decreases self.streams@.len() - i,
        {
            let (name, rng) = self.streams[i];
            let (state, inc) = rng.state();
            let ghost before = out@;
            out.push((name.to_owned(), state, inc));
            i = i + 1;
            assert(stream_views(out@) =~= stream_views(before).push((name@, state, inc)));
        }
        out
    }
}

/// The streams by name. Of two with one name the later one counts.
pub open spec fn streams_by_name(rng: Seq<(Seq<char>, u64, u64)>) -> Map<Seq<char>, (u64, u64)>
    decreases rng.len(),
{
    if rng.len() == 0 {
        Map::empty()
    } else {
        streams_by_name(rng.drop_last()).insert(rng.last().0, (rng.last().1, rng.last().2))
    }
}

/// Restore the named RNG streams of a snapshot.
///
/// Returned by name so a caller can put each back where it belongs; streams
/// the caller does not recognise are ignored rather than rejected, so adding
/// one is backwards compatible.
pub fn restore_rng(snapshot: &Snapshot) -> (r: StringHashMap<Pcg32>)
    ensures
        r@.map_values(|p: Pcg32| p@) == streams_by_name(snapshot@.rng),
{
    let mut r: StringHashMap<Pcg32> = StringHashMap::new();
    let ghost rng = snapshot@.rng;
    let mut i: usize = 0;
    while i < snapshot.rng.len()
        invariant
            i <= snapshot.rng@.len(),
            rng == stream_views(snapshot.rng@),
            r@.map_values(|p: Pcg32| p@) == streams_by_name(rng.take(i as int)),
        decreases snapshot.rng@.len() - i,
    {
        let s: &(String, u64, u64) = &snapshot.rng[i];
        proof {
            assert(rng.take(i + 1).drop_last() =~= rng.take(i as int));
        }
        r.insert(s.0.clone(), Pcg32::from_state((s.1, s.2)));
        i = i + 1;
    }
    assert(rng.take(i as int) =~= rng);
    r
}

// ---------------------------------------------------------------------------
// Capture.
// ---------------------------------------------------------------------------

/// `encode` said of a registration that the world holds none of it.
pub open spec fn absent<C, F: Fn(&Entry<C>, &C) -> Option<Result<Vec<u8>, String>>>(
    encode: F,
    e: Entry<C>,
) -> bool {
    call_ensures(encode, (&e, &e.codec->0), None::<Result<Vec<u8>, String>>)
}

/// `encode` gave these bytes for a registration.
pub open spec fn encoded<C, F: Fn(&Entry<C>, &C) -> Option<Result<Vec<u8>, String>>>(
    encode: F,
    e: Entry<C>,
    bytes: Seq<u8>,
) -> bool {
    exists|v: Vec<u8>|
        v@ == bytes && #[trigger] call_ensures(encode, (&e, &e.codec->0), Some(Ok(v)))
}

/// `encode` failed on a registration.
pub open spec fn unencodable<C, F: Fn(&Entry<C>, &C) -> Option<Result<Vec<u8>, String>>>(
    encode: F,
    e: Entry<C>,
    why: Seq<char>,
) -> bool {
    exists|w: String|
        w@ == why && #[trigger] call_ensures(encode, (&e, &e.codec->0), Some(Err(w)))
}

/// These are the columns of the registrations: one for each that is saved and
/// that the world holds, in registration order, under its name and version.
pub open spec fn captured<C, F: Fn(&Entry<C>, &C) -> Option<Result<Vec<u8>, String>>>(
    encode: F,
    es: Seq<Entry<C>>,
    columns: Seq<ColumnView>,
) -> bool
    decreases es.len(),
{
    if es.len() == 0 {
        columns.len() == 0
    } else {
        let e = es.last();
        let front = es.drop_last();
        if !e.persist.is_saved() {
            captured(encode, front, columns)
        } else {
            ||| absent(encode, e) && captured(encode, front, columns)
            ||| {
                &&& columns.len() > 0
                &&& columns.last().name == e.name@
                &&& columns.last().version == e.version
                &&& encoded(encode, e, columns.last().bytes)
                &&& captured(encode, front, columns.drop_last())
            }
        }
    }
}

/// Capture a world into a [`Snapshot`].
///
/// Walks the registry rather than the world's storages: a component the world
/// holds but nobody registered is silently *not* saved, which is precisely
/// the bug [`Registry::audit`] exists to catch at startup. `encode` gives the
/// bytes of a component's column, or `None` where the world happens to hold
/// none of it.
pub fn capture<C, F: Fn(&Entry<C>, &C) -> Option<Result<Vec<u8>, String>>>(
    slots: &Slots,
    registry: &Registry<C>,
    tick: u64,
    rng: &RngStreams<'_>,
    encode: F,
) -> (res: Result<Snapshot, SnapshotError>)
    requires
        registry.wf(),
        forall|e: &Entry<C>, c: &C| #[trigger] call_requires(encode, (e, c)),
    ensures
        match res {
            Ok(s) => {
                &&& s.format_version == FORMAT_VERSION
                &&& s.tick == tick
                &&& s@.rng == rng@
                &&& s@.slots == slots@
                &&& captured(encode, registry@.entries, s@.columns)
            },
            Err(e) => e@ is Codec && exists|k: int, earlier: Seq<ColumnView>|
                0 <= k < registry@.entries.len() && #[trigger] captured(
                    encode,
                    registry@.entries.take(k),
                    earlier,
                ) && registry@.entries[k].persist.is_saved() && unencodable(
                    encode,
                    registry@.entries[k],
                    e@->Codec_0,
                ),
        },
{
    proof {
        registry.lemma_wf();
    }
    let entries: &[Entry<C>] = registry.entries();
    let ghost es = registry@.entries;
    let mut columns: Vec<Column> = Vec::new();
    let mut i: usize = 0;
    while i < entries.len()
        invariant
            i <= entries@.len(),
            es == entries@,
            registry@.wf(),
            es == registry@.entries,
            forall|e: &Entry<C>, c: &C| #[trigger] call_requires(encode, (e, c)),
            captured(encode, es.take(i as int), column_views(columns@)),
        decreases entries@.len() - i,
    {
        let e: &Entry<C> = &entries[i];
        proof {
            assert(es.take(i + 1).drop_last() =~= es.take(i as int));
        }
        i = i + 1;
        if !e.persist.in_checkpoint() {
            continue ;
        }
        let codec: &C = match &e.codec {
            Some(c) => c,
            None => {
                continue ;
            },
        };
        match encode(e, codec) {
            None => {},
            Some(Err(why)) => {
                return Err(SnapshotError::Codec(why));
            },
            Some(Ok(bytes)) => {
                let ghost before = columns@;
                columns.push(Column { name: e.name.to_owned(), version: e.version, bytes });
                proof {
                    assert(column_views(columns@).drop_last() =~= column_views(before));
                }
            },
        }
    }
    assert(es.take(i as int) =~= es);
    Ok(
        Snapshot {
            format_version: FORMAT_VERSION,
            tick,
            rng: rng.positions(),
            slots: slots.clone(),
            columns,
        },
    )
}

// ---------------------------------------------------------------------------
// Restore.
// ---------------------------------------------------------------------------

/// The registration under a name.
pub open spec fn entry_named<C>(es: Seq<Entry<C>>, name: Seq<char>) -> Entry<C> {
    es[choose|i: int| 0 <= i < es.len() && (#[trigger] es[i]).name@ == name]
}

/// Which registration a column belongs to, or why none. Old names are
/// followed, so a component saved under one still loads.
pub open spec fn owner_of<C>(v: RegistryView<C>, c: ColumnView) -> Result<
    Entry<C>,
    SnapshotErrorView,
> {
    let current = v.current(c.name);
    if !registry::has_name(v.entries, current) {
        Err(SnapshotErrorView::UnknownComponent(c.name))
    } else {
        let e = entry_named(v.entries, current);
        if e.version != c.version {
            Err(
                SnapshotErrorView::SchemaMismatch {
                    name: c.name,
                    found: c.version as nat,
                    expected: e.version as nat,
                },
            )
        } else if e.codec is None {
            Err(SnapshotErrorView::UnknownComponent(c.name))
        } else {
            Ok(e)
        }
    }
}

/// Find the registration that a column belongs to.
pub fn column_owner<'a, C>(registry: &'a Registry<C>, column: &Column) -> (res: Result<
    &'a Entry<C>,
    SnapshotError,
>)
    requires
        registry.wf(),
    ensures
        match owner_of(registry@, column@) {
            Ok(e) => res is Ok && *res->Ok_0 == e && e.codec is Some,
            Err(e) => res is Err && res->Err_0@ == e,
        },
{
    proof {
        registry.lemma_wf();
    }
    match registry.by_name(column.name.as_str()) {
        None => Err(SnapshotError::UnknownComponent(column.name.clone())),
        Some(e) => {
            proof {
                let es = registry@.entries;
                let current = registry@.current(column@.name);
            }
            if e.version != column.version {
                return Err(
                    SnapshotError::SchemaMismatch {
                        name: column.name.clone(),
                        found: column.version,
                        expected: e.version,
                    },
                );
            }
            if e.codec.is_none() {
                return Err(SnapshotError::UnknownComponent(column.name.clone()));
            }
            Ok(e)
        },
    }
}

/// A column was decoded by the codec of its registration, and installing it
/// into the world `before` gave the world `after`.
pub open spec fn installed<
    W,
    C,
    D,
    F: Fn(&C, &Vec<u8>) -> Result<D, String>,
    I: Fn(W, &Entry<C>, D) -> Result<W, String>,
>(v: RegistryView<C>, decode: F, install: I, c: Column, before: W, after: W) -> bool {
    &&& owner_of(v, c@) is Ok
    &&& exists|d: D|
        #![trigger call_ensures(install, (before, &owner_of(v, c@)->Ok_0, d), Ok(after))]
        call_ensures(decode, (&owner_of(v, c@)->Ok_0.codec->0, &c.bytes), Ok::<D, String>(d))
            && call_ensures(install, (before, &owner_of(v, c@)->Ok_0, d), Ok(after))
}

/// A column could not be put back into the world `before`, for this reason.
pub open spec fn rejected<
    W,
    C,
    D,
    F: Fn(&C, &Vec<u8>) -> Result<D, String>,
    I: Fn(W, &Entry<C>, D) -> Result<W, String>,
>(v: RegistryView<C>, decode: F, install: I, c: Column, before: W, e: SnapshotError) -> bool {
    match owner_of(v, c@) {
        Err(why) => e@ == why,
        Ok(owner) => match e {
            SnapshotError::Codec(why) => call_ensures(
                decode,
                (&owner.codec->0, &c.bytes),
                Err::<D, String>(why),
            ),
            SnapshotError::Corrupt(why) => exists|d: D|
                #![trigger call_ensures(install, (before, &owner, d), Err(why))]
                call_ensures(decode, (&owner.codec->0, &c.bytes), Ok::<D, String>(d))
                    && call_ensures(install, (before, &owner, d), Err(why)),
            _ => false,
        },
    }
}

/// The world `w` was made from these slots and then given these columns, in
/// order.
pub open spec fn rebuilt<
    W,
    C,
    D,
    A: Fn(Slots) -> Result<W, String>,
    F: Fn(&C, &Vec<u8>) -> Result<D, String>,
    I: Fn(W, &Entry<C>, D) -> Result<W, String>,
>(
    v: RegistryView<C>,
    allocate: A,
    decode: F,
    install: I,
    slots: SlotsView,
    columns: Seq<Column>,
    w: W,
) -> bool
    decreases columns.len(),
{
    if columns.len() == 0 {
        exists|s: Slots| s@ == slots && #[trigger] call_ensures(allocate, (s,), Ok(w))
    } else {
        exists|before: W| #[trigger]
            installed(v, decode, install, columns.last(), before, w) && rebuilt(
                v,
                allocate,
                decode,
                install,
                slots,
                columns.drop_last(),
                before,
            )
    }
}

/// A snapshot could not be restored, for this reason: it is from a newer
/// engine, its slots contradict each other, or one of its columns could not be
/// put back after those before it were.
pub open spec fn refused<
    W,
    C,
    D,
    A: Fn(Slots) -> Result<W, String>,
    F: Fn(&C, &Vec<u8>) -> Result<D, String>,
    I: Fn(W, &Entry<C>, D) -> Result<W, String>,
>(
    v: RegistryView<C>,
    allocate: A,
    decode: F,
    install: I,
    snapshot: Snapshot,
    e: SnapshotError,
) -> bool {
    if snapshot.format_version > FORMAT_VERSION {
        e == (SnapshotError::FutureFormat {
            found: snapshot.format_version,
            supported: FORMAT_VERSION,
        })
    } else {
        ||| e is Corrupt && exists|s: Slots|
            s@ == snapshot@.slots && #[trigger] call_ensures(allocate, (s,), Err(e->Corrupt_0))
        ||| exists|k: int, before: W|
            0 <= k < snapshot.columns@.len() && #[trigger] rebuilt(
                v,
                allocate,
                decode,
                install,
                snapshot@.slots,
                snapshot.columns@.take(k),
                before,
            ) && rejected(v, decode, install, snapshot.columns@[k], before, e)
    }
}

/// Rebuild a world from a snapshot.
///
/// The world is replaced wholesale, not merged into: `allocate` makes one with
/// the slots in place and nothing else, or says how the arrays contradict each
/// other; then each column is decoded by its component's codec and `install`
/// gives it to the world. The first failure ends it.
pub fn restore<
    W,
    C,
    D,
    A: Fn(Slots) -> Result<W, String>,
    F: Fn(&C, &Vec<u8>) -> Result<D, String>,
    I: Fn(W, &Entry<C>, D) -> Result<W, String>,
>(
    snapshot: &Snapshot,
    registry: &Registry<C>,
    allocate: A,
    decode: F,
    install: I,
) -> (res: Result<W, SnapshotError>)
    requires
        registry.wf(),
        forall|s: Slots| #[trigger] call_requires(allocate, (s,)),
        forall|c: &C, b: &Vec<u8>| #[trigger] call_requires(decode, (c, b)),
        forall|w: W, e: &Entry<C>, d: D| #[trigger] call_requires(install, (w, e, d)),
    ensures
        match res {
            Ok(w) => {
                &&& snapshot.format_version <= FORMAT_VERSION
                &&& rebuilt(
                    registry@,
                    allocate,
                    decode,
                    install,
                    snapshot@.slots,
                    snapshot.columns@,
                    w,
                )
            },
            Err(e) => refused(registry@, allocate, decode, install, *snapshot, e),
        },
{
    if snapshot.format_version > FORMAT_VERSION {
        return Err(
            SnapshotError::FutureFormat {
                found: snapshot.format_version,
                supported: FORMAT_VERSION,
            },
        );
    }
    let slots = snapshot.slots.clone();
    let ghost given = slots;
    let mut world: W = match allocate(slots) {
        Ok(w) => w,
        Err(why) => {
            let e = SnapshotError::Corrupt(why);
            assert(call_ensures(allocate, (given,), Err(e->Corrupt_0)));
            return Err(e);
        },
    };
    let ghost columns = snapshot.columns@;
    let mut i: usize = 0;
    assert(columns.take(0).len() == 0);
    while i < snapshot.columns.len()
        invariant
            columns == snapshot.columns@,
            registry.wf(),
            snapshot.format_version <= FORMAT_VERSION,
            i <= columns.len(),
            forall|c: &C, b: &Vec<u8>| #[trigger] call_requires(decode, (c, b)),
            forall|w: W, e: &Entry<C>, d: D| #[trigger] call_requires(install, (w, e, d)),
            rebuilt(
                registry@,
                allocate,
                decode,
                install,
                snapshot@.slots,
                columns.take(i as int),
                world,
            ),
        decreases columns.len() - i,
    {
        let column: &Column = &snapshot.columns[i];
        let ghost before = world;
        proof {
            assert(columns.take(i + 1).drop_last() =~= columns.take(i as int));
            assert(columns.take(i + 1).last() == *column);
        }
        let owner: &Entry<C> = match column_owner(registry, column) {
            Ok(e) => e,
            Err(e) => {
                assert(rejected(registry@, decode, install, *column, before, e));
                return Err(e);
            },
        };
        if let Some(codec) = &owner.codec {
            let d: D = match decode(codec, &column.bytes) {
                Ok(d) => d,
                Err(why) => {
                    let e = SnapshotError::Codec(why);
                    assert(rejected(registry@, decode, install, *column, before, e));
                    return Err(e);
                },
            };
            world = match install(world, owner, d) {
                Ok(w) => w,
                Err(why) => {
                    let e = SnapshotError::Corrupt(why);
                    assert(rejected(registry@, decode, install, *column, before, e));
                    return Err(e);
                },
            };
            assert(installed(registry@, decode, install, *column, before, world));
        }
        i = i + 1;
    }
    assert(columns.take(i as int) =~= columns);
    Ok(world)
}

// ---------------------------------------------------------------------------
// Bytes.
// ---------------------------------------------------------------------------

/// The fields of a snapshot in the order they are encoded.
pub type Fields = (
    u32,
    u64,
    Vec<(String, u64, u64)>,
    Vec<u32>,
    Vec<bool>,
    Vec<u32>,
    Vec<(String, u32, Vec<u8>)>,
);

/// The snapshot that fields make up.
pub open spec fn fields_view(f: Fields) -> SnapshotView {
    SnapshotView {
        format_version: f.0,
        tick: f.1,
        rng: stream_views(f.2@),
        slots: SlotsView { generations: f.3@, alive: f.4@, free_list: f.5@ },
        columns: f.6@.map_values(
            |c: (String, u32, Vec<u8>)|
                ColumnView { name: c.0@, version: c.1, bytes: c.2@ },
        ),
    }
}

/// What bincode writes for a snapshot.
pub uninterp spec fn bincode_written(s: SnapshotView) -> Seq<u8>;

/// What bincode reads from bytes, where they are a snapshot and perhaps more.
pub uninterp spec fn bincode_read(bytes: Seq<u8>) -> Option<SnapshotView>;

/// `bincode::serialize` of a snapshot's fields. It has no size limit, writes
/// to memory and is given sequences of known length, so it does not fail; what
/// it writes depends on the fields alone.
#[verifier::external_body]
fn bincode_serialize(fields: &Fields) -> (r: Result<Vec<u8>, String>)
    ensures
        r is Ok,
        r->Ok_0@ == bincode_written(fields_view(*fields)),
{
    bincode::serialize(fields).map_err(|e| e.to_string())
}

/// `bincode::deserialize` of a snapshot's fields. Whether it succeeds, and
/// with what, depends on the bytes alone, and it gives back what
/// `bincode::serialize` wrote. Of the error text nothing is claimed.
#[verifier::external_body]
fn bincode_deserialize(bytes: &[u8]) -> (r: Result<Fields, String>)
    ensures
        match r {
            Ok(fields) => bincode_read(bytes@) == Some(fields_view(fields)),
            Err(_) => bincode_read(bytes@) is None,
        },
        forall|s: SnapshotView|
            bytes@ == #[trigger] bincode_written(s) ==> r is Ok && fields_view(r->Ok_0) == s,
{
    bincode::deserialize(bytes).map_err(|e| e.to_string())
}

/// Encode a snapshot to bytes.
pub fn to_bytes(snapshot: &Snapshot) -> (res: Result<Vec<u8>, SnapshotError>)
    ensures
        res is Ok,
        res->Ok_0@ == bincode_written(snapshot@),
{
    let mut rng: Vec<(String, u64, u64)> = Vec::new();
    let mut i: usize = 0;
    while i < snapshot.rng.len()
        invariant
            i <= snapshot.rng@.len(),
            stream_views(rng@) == stream_views(snapshot.rng@).take(i as int),
        decreases snapshot.rng@.len() - i,
    {
        let r: &(String, u64, u64) = &snapshot.rng[i];
        let ghost before = rng@;
        rng.push((r.0.clone(), r.1, r.2));
        i = i + 1;
        assert(stream_views(rng@) =~= stream_views(before).push((r.0@, r.1, r.2)));
    }
    let mut columns: Vec<(String, u32, Vec<u8>)> = Vec::new();
    let mut j: usize = 0;
    while j < snapshot.columns.len()
        invariant
            j <= snapshot.columns@.len(),
            columns@.len() == j,
            forall|k: int|
                0 <= k < j ==> (#[trigger] columns@[k]).0@ == snapshot.columns@[k].name@
                    && columns@[k].1 == snapshot.columns@[k].version && columns@[k].2@
                    == snapshot.columns@[k].bytes@,
        decreases snapshot.columns@.len() - j,
    {
        let c: &Column = &snapshot.columns[j];
        let bytes = c.bytes.clone();
        columns.push((c.name.clone(), c.version, bytes));
        j = j + 1;
    }
    let slots = snapshot.slots.clone();
    let fields: Fields = (
        snapshot.format_version,
        snapshot.tick,
        rng,
        slots.generations,
        slots.alive,
        slots.free_list,
        columns,
    );
    proof {
        assert(stream_views(rng@) =~= snapshot@.rng);
        assert(fields_view(fields).columns =~= snapshot@.columns);
    }
    match bincode_serialize(&fields) {
        Ok(bytes) => Ok(bytes),
        Err(e) => Err(SnapshotError::Codec(e)),
    }
}

/// Decode a snapshot from bytes.
pub fn from_bytes(bytes: &[u8]) -> (res: Result<Snapshot, SnapshotError>)
    ensures
        match res {
            Ok(s) => bincode_read(bytes@) == Some(s@),
            Err(e) => bincode_read(bytes@) is None && e is Codec,
        },
        forall|s: SnapshotView|
            #![trigger bincode_written(s)]
            bytes@ == bincode_written(s) ==> res is Ok && res->Ok_0@ == s,
{
    match bincode_deserialize(bytes) {
        Ok(fields) => Ok(from_fields(fields)),
        Err(e) => Err(SnapshotError::Codec(e)),
    }
}

/// The snapshot that decoded fields make up.
fn from_fields(fields: Fields) -> (s: Snapshot)
    ensures
        s@ == fields_view(fields),
{
    let (format_version, tick, rng, generations, alive, free_list, raw) = fields;
    let mut columns: Vec<Column> = Vec::new();
    let mut i: usize = 0;
    while i < raw.len()
        invariant
            i <= raw@.len(),
            columns@.len() == i,
            forall|k: int|
                0 <= k < i ==> (#[trigger] columns@[k]).name@ == raw@[k].0@ && columns@[k].version
                    == raw@[k].1 && columns@[k].bytes@ == raw@[k].2@,
        decreases raw@.len() - i,
    {
        let c: &(String, u32, Vec<u8>) = &raw[i];
        let bytes = c.2.clone();
        columns.push(Column { name: c.0.clone(), version: c.1, bytes });
        i = i + 1;
    }
    let s = Snapshot {
        format_version,
        tick,
        rng,
        slots: Slots { generations, alive, free_list },
        columns,
    };
    s
}

// ---------------------------------------------------------------------------
// The engine's own components.
// ---------------------------------------------------------------------------

/// The components the engine itself defines: their types, and the codecs of
/// those that are saved.
pub struct EngineComponents<C> {
    pub transform2d: (TypeId, C),
    pub velocity: (TypeId, C),
    pub collider: (TypeId, C),
    pub destructible2d: (TypeId, C),
    pub particle: TypeId,
    pub player_tag: TypeId,
    pub camera_target: TypeId,
}

/// What a saved component is registered as.
pub open spec fn volatile_entry<C>(name: &'static str, at: nat, c: (TypeId, C)) -> Entry<C> {
    Entry {
        name,
        id: NameId(at as u16),
        persist: Persist::Volatile,
        replicate: Replicate::ServerOnly,
        version: 1,
        type_id: c.0,
        codec: Some(c.1),
    }
}

/// What a component that is never saved is registered as.
pub open spec fn transient_entry<C>(name: &'static str, at: nat, t: TypeId) -> Entry<C> {
    Entry {
        name,
        id: NameId(at as u16),
        persist: Persist::Transient,
        replicate: Replicate::ServerOnly,
        version: 1,
        type_id: t,
        codec: None,
    }
}

/// The engine's components in the order they are registered, the first of
/// them numbered `at`.
pub open spec fn engine_entries<C>(c: EngineComponents<C>, at: nat) -> Seq<Entry<C>> {
    seq![
        volatile_entry("transform2d", at, c.transform2d),
        volatile_entry("velocity", at + 1, c.velocity),
        volatile_entry("collider", at + 2, c.collider),
        volatile_entry("destructible2d", at + 3, c.destructible2d),
        transient_entry("particle", at + 4, c.particle),
        transient_entry("player_tag", at + 5, c.player_tag),
        transient_entry("camera_target", at + 6, c.camera_target),
    ]
}

/// Registering entries one after the other, up to the first refusal: the
/// entries after it, and the refusal.
pub open spec fn registered_all<C>(es: Seq<Entry<C>>, new: Seq<Entry<C>>, i: nat) -> (
    Seq<Entry<C>>,
    Option<RegistryErrorView>,
)
    decreases new.len() - i,
{
    if i >= new.len() {
        (es, None)
    } else {
        let e = new[i as int];
        match registry::registration(es, e.name@, e.type_id) {
            Ok(_) => registered_all(es.push(e), new, i + 1),
            Err(why) => (es, Some(why)),
        }
    }
}

/// Components the engine itself defines, registered under stable names.
///
/// A game calls this, then adds its own. The names are engine API: they are
/// what every existing save file already says, so they may not change without
/// a [`Registry::rename`].
///
/// Particles are cosmetic and short-lived; restoring mid-flight sparks is
/// worse than letting them lapse. Which entity the camera follows is a
/// property of a session, not of the world.
pub fn register_engine_components<C>(
    registry: &mut Registry<C>,
    components: EngineComponents<C>,
) -> (res: Result<(), RegistryError>)
    requires
        old(registry).wf(),
    ensures
        final(registry).wf(),
        final(registry)@.aliases == old(registry)@.aliases,
        final(registry)@.entries == registered_all(
            old(registry)@.entries,
            engine_entries(components, old(registry)@.entries.len()),
            0,
        ).0,
        match registered_all(
            old(registry)@.entries,
            engine_entries(components, old(registry)@.entries.len()),
            0,
        ).1 {
            None => res is Ok,
            Some(e) => res is Err && res->Err_0@ == e,
        },
{
    proof {
        reveal_with_fuel(registered_all, 8);
    }
    let (t, c) = components.transform2d;
    if let Err(e) = registry.register("transform2d", Persist::Volatile, t, c) {
        return Err(e);
    }
    let (t, c) = components.velocity;
    if let Err(e) = registry.register("velocity", Persist::Volatile, t, c) {
        return Err(e);
    }
    let (t, c) = components.collider;
    if let Err(e) = registry.register("collider", Persist::Volatile, t, c) {
        return Err(e);
    }
    let (t, c) = components.destructible2d;
    if let Err(e) = registry.register("destructible2d", Persist::Volatile, t, c) {
        return Err(e);
    }
    if let Err(e) = registry.register_transient("particle", components.particle) {
        return Err(e);
    }
    if let Err(e) = registry.register_transient("player_tag", components.player_tag) {
        return Err(e);
    }
    if let Err(e) = registry.register_transient("camera_target", components.camera_target) {
        return Err(e);
    }
    Ok(())
}

// ---------------------------------------------------------------------------
// Laws.
// ---------------------------------------------------------------------------

/// Every stream resumes at the position it was saved at, where no two share a
/// name.
pub proof fn law_streams_resume_where_they_were(rng: Seq<(Seq<char>, u64, u64)>, i: int)
    requires
        0 <= i < rng.len(),
        forall|a: int, b: int|
            0 <= a < b < rng.len() ==> (#[trigger] rng[a]).0 != (#[trigger] rng[b]).0,
    ensures
        streams_by_name(rng).contains_key(rng[i].0),
        streams_by_name(rng)[rng[i].0] == (rng[i].1, rng[i].2),
    decreases rng.len(),
{
    let front = rng.drop_last();
    if i < front.len() {
        law_streams_resume_where_they_were(front, i);
    }
}

/// Every column of a capture belongs to a saved registration, under its name
/// and version.
proof fn lemma_captured_columns<C, F: Fn(&Entry<C>, &C) -> Option<Result<Vec<u8>, String>>>(
    encode: F,
    es: Seq<Entry<C>>,
    columns: Seq<ColumnView>,
    k: int,
) -> (at: int)
    requires
        captured(encode, es, columns),
        0 <= k < columns.len(),
    ensures
        0 <= at < es.len(),
        es[at].persist.is_saved(),
        columns[k].name == es[at].name@,
        columns[k].version == es[at].version,
        encoded(encode, es[at], columns[k].bytes),
    decreases es.len(),
{
    let e = es.last();
    let front = es.drop_last();
    if !e.persist.is_saved() || (absent(encode, e) && captured(encode, front, columns)) {
        let at = lemma_captured_columns(encode, front, columns, k);
        at
    } else if k == columns.len() - 1 {
        es.len() - 1
    } else {
        let at = lemma_captured_columns(encode, front, columns.drop_last(), k);
        at
    }
}

/// What was captured can be restored by the same registry: every column finds
/// the very registration it was encoded by, unless its name has since become
/// the old name of another component.
pub proof fn law_a_capture_finds_its_components<
    C,
    F: Fn(&Entry<C>, &C) -> Option<Result<Vec<u8>, String>>,
>(encode: F, v: RegistryView<C>, columns: Seq<ColumnView>, k: int)
    requires
        v.wf(),
        captured(encode, v.entries, columns),
        0 <= k < columns.len(),
        !v.aliases.contains_key(columns[k].name),
    ensures
        owner_of(v, columns[k]) is Ok,
        owner_of(v, columns[k])->Ok_0.name@ == columns[k].name,
        encoded(encode, owner_of(v, columns[k])->Ok_0, columns[k].bytes),
{
    let es = v.entries;
    let at = lemma_captured_columns(encode, es, columns, k);
    let name = columns[k].name;
}

/// A capture is accepted back: where the slots are in order, every codec reads
/// what it wrote and the world takes its columns, restoring is not refused for
/// any reason, so it succeeds. Excepted are columns whose name has since become
/// the old name of another component.
pub proof fn law_a_capture_is_accepted<
    W,
    C,
    D,
    E: Fn(&Entry<C>, &C) -> Option<Result<Vec<u8>, String>>,
    A: Fn(Slots) -> Result<W, String>,
    F: Fn(&C, &Vec<u8>) -> Result<D, String>,
    I: Fn(W, &Entry<C>, D) -> Result<W, String>,
>(
    v: RegistryView<C>,
    encode: E,
    allocate: A,
    decode: F,
    install: I,
    snapshot: Snapshot,
    e: SnapshotError,
)
    requires
        v.wf(),
        snapshot.format_version == FORMAT_VERSION,
        captured(encode, v.entries, snapshot@.columns),
        forall|k: int|
            0 <= k < snapshot.columns@.len() ==> !v.aliases.contains_key(
                (#[trigger] snapshot.columns@[k]).name@,
            ),
        forall|s: Slots, r: Result<W, String>|
            s@ == snapshot@.slots && #[trigger] call_ensures(allocate, (s,), r) ==> r is Ok,
        forall|x: Entry<C>, b: Vec<u8>, r: Result<D, String>|
            v.entries.contains(x) && encoded(encode, x, b@) && #[trigger] call_ensures(
                decode,
                (&x.codec->0, &b),
                r,
            ) ==> r is Ok,
        forall|u: W, x: Entry<C>, d: D, r: Result<W, String>|
            v.entries.contains(x) && #[trigger] call_ensures(install, (u, &x, d), r) ==> r is Ok,
    ensures
        !refused(v, allocate, decode, install, snapshot, e),
{
    let columns = snapshot.columns@;
    let views = snapshot@.columns;
    assert forall|k: int, before: W| 0 <= k < columns.len() implies !(#[trigger] rejected(
        v,
        decode,
        install,
        columns[k],
        before,
        e,
    )) by {
        assert(views[k] == columns[k]@);
        let at = lemma_owner_of_captured(encode, v, views, k);
        assert(v.entries.contains(v.entries[at]));
    }
}

/// What a world holds, as far as a snapshot is concerned: its slots, and its
/// columns by type.
#[verifier::reject_recursive_types(W)]
#[verifier::reject_recursive_types(D)]
pub struct Contents<W, D, T> {
    pub slots: spec_fn(W) -> SlotsView,
    /// The column of a type, where the world holds one.
    pub column: spec_fn(W, TypeId) -> Option<T>,
    /// What a decoded column holds.
    pub value: spec_fn(D) -> T,
}

impl<W, D, T> Contents<W, D, T> {
    /// `encode` tells of the world `w`: it passes a registered component over
    /// only where `w` holds no column of it, and what it wrote decodes to the
    /// column that `w` holds.
    pub open spec fn told_by<
        C,
        F: Fn(&Entry<C>, &C) -> Option<Result<Vec<u8>, String>>,
        G: Fn(&C, &Vec<u8>) -> Result<D, String>,
    >(self, es: Seq<Entry<C>>, w: W, encode: F, decode: G) -> bool {
        &&& forall|x: Entry<C>|
            es.contains(x) && #[trigger] absent(encode, x) ==> (self.column)(w, x.type_id) is None
        &&& forall|x: Entry<C>, b: Vec<u8>, r: Result<D, String>|
            es.contains(x) && encoded(encode, x, b@) && #[trigger] call_ensures(
                decode,
                (&x.codec->0, &b),
                r,
            ) ==> r is Ok && (self.column)(w, x.type_id) == Some((self.value)(r->Ok_0))
    }

    /// A world that was just made has the slots it was given and no columns.
    pub open spec fn starts_empty<A: Fn(Slots) -> Result<W, String>>(self, allocate: A) -> bool {
        forall|s: Slots, w: W| #[trigger]
            call_ensures(allocate, (s,), Ok(w)) ==> (self.slots)(w) == s@ && forall|t: TypeId|
                (#[trigger] (self.column)(w, t)) is None
    }

    /// Installing the column of a registered component sets that column and
    /// touches nothing else.
    pub open spec fn takes_columns<C, I: Fn(W, &Entry<C>, D) -> Result<W, String>>(
        self,
        es: Seq<Entry<C>>,
        install: I,
    ) -> bool {
        forall|u: W, x: Entry<C>, d: D, w: W|
            es.contains(x) && #[trigger] call_ensures(install, (u, &x, d), Ok(w)) ==> (self.slots)(
                w,
            ) == (self.slots)(u) && forall|t: TypeId| #[trigger]
                (self.column)(w, t) == if t == x.type_id {
                    Some((self.value)(d))
                } else {
                    (self.column)(u, t)
                }
    }
}

/// A type that some saved registration is for.
pub open spec fn is_saved_type<C>(es: Seq<Entry<C>>, t: TypeId) -> bool {
    exists|i: int| 0 <= i < es.len() && (#[trigger] es[i]).persist.is_saved() && es[i].type_id == t
}

/// A saved registration is passed over, or has its column.
proof fn lemma_captured_entries<C, F: Fn(&Entry<C>, &C) -> Option<Result<Vec<u8>, String>>>(
    encode: F,
    es: Seq<Entry<C>>,
    columns: Seq<ColumnView>,
    at: int,
) -> (k: int)
    requires
        captured(encode, es, columns),
        0 <= at < es.len(),
        es[at].persist.is_saved(),
    ensures
        absent(encode, es[at]) || (0 <= k < columns.len() && columns[k].name == es[at].name@),
    decreases es.len(),
{
    let e = es.last();
    let front = es.drop_last();
    if at == es.len() - 1 {
        columns.len() - 1
    } else {
        assert(front[at] == es[at]);
        if !e.persist.is_saved() || (absent(encode, e) && captured(encode, front, columns)) {
            let k = lemma_captured_entries(encode, front, columns, at);
            k
        } else {
            let k = lemma_captured_entries(encode, front, columns.drop_last(), at);
            k
        }
    }
}

/// The owner of a captured column is the registration it was captured for.
proof fn lemma_owner_of_captured<C, F: Fn(&Entry<C>, &C) -> Option<Result<Vec<u8>, String>>>(
    encode: F,
    v: RegistryView<C>,
    columns: Seq<ColumnView>,
    k: int,
) -> (at: int)
    requires
        v.wf(),
        captured(encode, v.entries, columns),
        0 <= k < columns.len(),
        !v.aliases.contains_key(columns[k].name),
    ensures
        0 <= at < v.entries.len(),
        v.entries[at].persist.is_saved(),
        v.entries[at].name@ == columns[k].name,
        owner_of(v, columns[k]) == Ok::<Entry<C>, SnapshotErrorView>(v.entries[at]),
        encoded(encode, v.entries[at], columns[k].bytes),
{
    let at = lemma_captured_columns(encode, v.entries, columns, k);
    law_a_capture_finds_its_components(encode, v, columns, k);
    at
}

/// A world that was given the first columns of a capture has the slots, holds
/// what the captured world held of each of them, and nothing else.
proof fn lemma_rebuilt_upto<
    W,
    C,
    D,
    T,
    E: Fn(&Entry<C>, &C) -> Option<Result<Vec<u8>, String>>,
    A: Fn(Slots) -> Result<W, String>,
    F: Fn(&C, &Vec<u8>) -> Result<D, String>,
    I: Fn(W, &Entry<C>, D) -> Result<W, String>,
>(
    holds: Contents<W, D, T>,
    v: RegistryView<C>,
    encode: E,
    allocate: A,
    decode: F,
    install: I,
    w: W,
    columns: Seq<Column>,
    n: int,
    u: W,
)
    requires
        v.wf(),
        captured(encode, v.entries, column_views(columns)),
        forall|k: int|
            0 <= k < columns.len() ==> !v.aliases.contains_key((#[trigger] columns[k]).name@),
        holds.told_by(v.entries, w, encode, decode),
        holds.starts_empty(allocate),
        holds.takes_columns(v.entries, install),
        0 <= n <= columns.len(),
        rebuilt(v, allocate, decode, install, (holds.slots)(w), columns.take(n), u),
    ensures
        (holds.slots)(u) == (holds.slots)(w),
        forall|t: TypeId| #[trigger]
            (holds.column)(u, t) == if exists|k: int|
                0 <= k < n && owner_of(v, (#[trigger] columns[k])@)->Ok_0.type_id == t {
                (holds.column)(w, t)
            } else {
                None
            },
    decreases n,
{
    let first = columns.take(n);
    if n > 0 {
        assert(first.drop_last() =~= columns.take(n - 1));
        let c = columns[n - 1];
        assert(first.last() == c);
        let before = choose|before: W| #[trigger]
            installed(v, decode, install, first.last(), before, u) && rebuilt(
                v,
                allocate,
                decode,
                install,
                (holds.slots)(w),
                first.drop_last(),
                before,
            );
        lemma_rebuilt_upto(
            holds,
            v,
            encode,
            allocate,
            decode,
            install,
            w,
            columns,
            n - 1,
            before,
        );
        let views = column_views(columns);
        assert(views[n - 1] == c@);
        let at = lemma_owner_of_captured(encode, v, views, n - 1);
        let x = v.entries[at];
        assert(v.entries.contains(x));
        assert(owner_of(v, c@)->Ok_0 == x);
        let d = choose|d: D|
            #![trigger call_ensures(install, (before, &owner_of(v, c@)->Ok_0, d), Ok(u))]
            call_ensures(decode, (&owner_of(v, c@)->Ok_0.codec->0, &c.bytes), Ok::<D, String>(d))
                && call_ensures(install, (before, &owner_of(v, c@)->Ok_0, d), Ok(u));
        assert(call_ensures(install, (before, &x, d), Ok(u)));
        assert(call_ensures(decode, (&x.codec->0, &c.bytes), Ok::<D, String>(d)));
        assert((holds.column)(w, x.type_id) == Some((holds.value)(d)));
        assert forall|t: TypeId| #[trigger]
            (holds.column)(u, t) == if exists|k: int|
                0 <= k < n && owner_of(v, (#[trigger] columns[k])@)->Ok_0.type_id == t {
                (holds.column)(w, t)
            } else {
                None
            } by {
            if t == x.type_id {
                assert(owner_of(v, columns[n - 1]@)->Ok_0.type_id == t);
            } else {
                assert((holds.column)(u, t) == (holds.column)(before, t));
                if exists|k: int|
                    0 <= k < n && owner_of(v, (#[trigger] columns[k])@)->Ok_0.type_id == t {
                    let k = choose|k: int|
                        0 <= k < n && owner_of(v, (#[trigger] columns[k])@)->Ok_0.type_id == t;
                    assert(k < n - 1);
                }
            }
        }
    }
}

/// **A world comes back exactly as it was.** Restoring a capture gives a world
/// with the same slots, so entity ids, generations and the free list are what
/// they were, and with the same column of every saved component, holes and
/// all. It holds nothing that the snapshot does not say.
///
/// This rests on what is left to others: that each codec reads back what it
/// wrote of the world, that a new world is empty and that installing a column
/// sets just that one. Excepted are columns whose name has since become the
/// old name of another component.
pub proof fn law_a_world_comes_back_exactly<
    W,
    C,
    D,
    T,
    E: Fn(&Entry<C>, &C) -> Option<Result<Vec<u8>, String>>,
    A: Fn(Slots) -> Result<W, String>,
    F: Fn(&C, &Vec<u8>) -> Result<D, String>,
    I: Fn(W, &Entry<C>, D) -> Result<W, String>,
>(
    holds: Contents<W, D, T>,
    v: RegistryView<C>,
    encode: E,
    allocate: A,
    decode: F,
    install: I,
    w: W,
    columns: Seq<Column>,
    u: W,
)
    requires
        v.wf(),
        captured(encode, v.entries, column_views(columns)),
        forall|k: int|
            0 <= k < columns.len() ==> !v.aliases.contains_key((#[trigger] columns[k]).name@),
        holds.told_by(v.entries, w, encode, decode),
        holds.starts_empty(allocate),
        holds.takes_columns(v.entries, install),
        rebuilt(v, allocate, decode, install, (holds.slots)(w), columns, u),
    ensures
        (holds.slots)(u) == (holds.slots)(w),
        forall|t: TypeId| #[trigger]
            (holds.column)(u, t) == if is_saved_type(v.entries, t) {
                (holds.column)(w, t)
            } else {
                None
            },
{
    let views = column_views(columns);
    let n = columns.len() as int;
    assert(columns.take(n) =~= columns);
    lemma_rebuilt_upto(holds, v, encode, allocate, decode, install, w, columns, n, u);
    assert forall|t: TypeId| #[trigger]
        (holds.column)(u, t) == if is_saved_type(v.entries, t) {
            (holds.column)(w, t)
        } else {
            None
        } by {
        if exists|k: int| 0 <= k < n && owner_of(v, (#[trigger] columns[k])@)->Ok_0.type_id == t {
            let k = choose|k: int|
                0 <= k < n && owner_of(v, (#[trigger] columns[k])@)->Ok_0.type_id == t;
            assert(views[k] == columns[k]@);
            let at = lemma_owner_of_captured(encode, v, views, k);
            assert(v.entries[at].persist.is_saved());
        } else if is_saved_type(v.entries, t) {
            let at = choose|i: int|
                0 <= i < v.entries.len() && (#[trigger] v.entries[i]).persist.is_saved()
                    && v.entries[i].type_id == t;
            assert(v.entries.contains(v.entries[at]));
            let k = lemma_captured_entries(encode, v.entries, views, at);
            if !absent(encode, v.entries[at]) {
                assert(views[k] == columns[k]@);
                let other = lemma_owner_of_captured(encode, v, views, k);
                assert(v.entries[other].name@ == v.entries[at].name@);
                assert(other == at);
            }
        }
    }
}

/// A renamed component still loads: a column saved under the old name belongs
/// to the registration under the new one.
pub proof fn law_an_old_name_still_loads<C>(
    v: RegistryView<C>,
    old_name: Seq<char>,
    new: Seq<char>,
    c: ColumnView,
)
    requires
        v.wf(),
        registry::has_name(v.entries, new),
        c.name == old_name,
        entry_named(v.entries, new).version == c.version,
        entry_named(v.entries, new).codec is Some,
    ensures
        owner_of(
            (RegistryView { aliases: v.aliases.insert(old_name, new), ..v }),
            c,
        ) == Ok::<Entry<C>, SnapshotErrorView>(entry_named(v.entries, new)),
{
}

/// Of streams that share a name the last counts, and no name is made up.
pub proof fn law_the_last_stream_of_a_name_counts(
    rng: Seq<(Seq<char>, u64, u64)>,
    name: Seq<char>,
    i: int,
)
    ensures
        0 <= i < rng.len() && rng[i].0 == name && (forall|j: int|
            i < j < rng.len() ==> (#[trigger] rng[j]).0 != name) ==> streams_by_name(
            rng,
        ).contains_key(name) && streams_by_name(rng)[name] == (rng[i].1, rng[i].2),
        (forall|j: int| 0 <= j < rng.len() ==> (#[trigger] rng[j]).0 != name)
            ==> !streams_by_name(rng).contains_key(name),
    decreases rng.len(),
{
    if rng.len() > 0 {
        let front = rng.drop_last();
        law_the_last_stream_of_a_name_counts(front, name, i);
        assert(forall|j: int| 0 <= j < front.len() ==> #[trigger] front[j] == rng[j]);
        assert(rng.last() == rng[rng.len() - 1]);
    }
}

/// A column belongs to the registration of its name, or of the name that it
/// became. Another schema is refused with both versions, and a component that
/// is unknown or is never saved is refused by the name in the snapshot.
pub proof fn law_a_column_belongs_to_its_registration<C>(
    r: &Registry<C>,
    column: &Column,
    res: Result<&Entry<C>, SnapshotError>,
    name: Seq<char>,
    i: int,
)
    requires
        r.wf(),
        call_ensures(column_owner::<C>, (r, column), res),
        name == (if r@.aliases.contains_key(column.name@) {
            r@.aliases[column.name@]
        } else {
            column.name@
        }),
        0 <= i < r@.entries.len(),
    ensures
        r@.entries[i].name@ == name && r@.entries[i].version == column.version
            && r@.entries[i].codec is Some ==> res is Ok && *res->Ok_0 == r@.entries[i],
        r@.entries[i].name@ == name && r@.entries[i].version != column.version ==> res is Err
            && res->Err_0 is SchemaMismatch && res->Err_0->SchemaMismatch_name@ == column.name@
            && res->Err_0->SchemaMismatch_found == column.version && res->Err_0->expected
            == r@.entries[i].version,
        r@.entries[i].name@ == name && r@.entries[i].version == column.version
            && r@.entries[i].codec is None ==> res is Err && res->Err_0 is UnknownComponent
            && res->Err_0->UnknownComponent_0@ == column.name@,
        (forall|j: int| 0 <= j < r@.entries.len() ==> (#[trigger] r@.entries[j]).name@ != name)
            ==> res is Err && res->Err_0 is UnknownComponent && res->Err_0->UnknownComponent_0@
            == column.name@,
{
    r.lemma_wf();
    let es = r@.entries;
    if es[i].name@ == name {
        assert(registry::has_name(es, name));
        let c = choose|c: int| 0 <= c < es.len() && (#[trigger] es[c]).name@ == name;
        assert(c == i);
    }
}

/// A capture is of this format, of the tick it was told, and holds the streams
/// and the slots as they are.
pub proof fn law_a_capture_says_when_it_was_taken<
    C,
    F: Fn(&Entry<C>, &C) -> Option<Result<Vec<u8>, String>>,
>(
    slots: &Slots,
    r: &Registry<C>,
    tick: u64,
    rng: &RngStreams<'_>,
    encode: F,
    res: Result<Snapshot, SnapshotError>,
)
    requires
        r.wf(),
        call_ensures(capture::<C, F>, (slots, r, tick, rng, encode), res),
    ensures
        res is Ok ==> {
            let s = res->Ok_0;
            &&& s.format_version == 1
            &&& s.tick == tick
            &&& s@.rng == rng@
            &&& s.slots.generations@ == slots.generations@
            &&& s.slots.alive@ == slots.alive@
            &&& s.slots.free_list@ == slots.free_list@
        },
        res is Err ==> res->Err_0 is Codec,
{
}

/// The columns of a capture stand in the order of their registrations, and none
/// stands twice.
pub proof fn law_columns_stand_in_registration_order<
    C,
    F: Fn(&Entry<C>, &C) -> Option<Result<Vec<u8>, String>>,
>(encode: F, es: Seq<Entry<C>>, columns: Seq<ColumnView>, k: int, l: int) -> (at: (int, int))
    requires
        captured(encode, es, columns),
        0 <= k < l < columns.len(),
    ensures
        0 <= at.0 < at.1 < es.len(),
        columns[k].name == es[at.0].name@ && columns[k].version == es[at.0].version && encoded(
            encode,
            es[at.0],
            columns[k].bytes,
        ),
        columns[l].name == es[at.1].name@ && columns[l].version == es[at.1].version && encoded(
            encode,
            es[at.1],
            columns[l].bytes,
        ),
        !(es[at.0].persist is Transient) && !(es[at.1].persist is Transient),
    decreases es.len(),
{
    let e = es.last();
    let front = es.drop_last();
    if !e.persist.is_saved() || (absent(encode, e) && captured(encode, front, columns)) {
        law_columns_stand_in_registration_order(encode, front, columns, k, l)
    } else if l == columns.len() - 1 {
        let at = lemma_captured_columns(encode, front, columns.drop_last(), k);
        (at, es.len() - 1)
    } else {
        law_columns_stand_in_registration_order(encode, front, columns.drop_last(), k, l)
    }
}

proof fn lemma_rebuilt_owners<
    W,
    C,
    D,
    A: Fn(Slots) -> Result<W, String>,
    F: Fn(&C, &Vec<u8>) -> Result<D, String>,
    I: Fn(W, &Entry<C>, D) -> Result<W, String>,
>(
    v: RegistryView<C>,
    allocate: A,
    decode: F,
    install: I,
    slots: SlotsView,
    columns: Seq<Column>,
    w: W,
    k: int,
)
    requires
        rebuilt(v, allocate, decode, install, slots, columns, w),
        0 <= k < columns.len(),
    ensures
        owner_of(v, columns[k]@) is Ok,
    decreases columns.len(),
{
    let before = choose|before: W| #[trigger]
        installed(v, decode, install, columns.last(), before, w) && rebuilt(
            v,
            allocate,
            decode,
            install,
            slots,
            columns.drop_last(),
            before,
        );
    if k < columns.len() - 1 {
        lemma_rebuilt_owners(v, allocate, decode, install, slots, columns.drop_last(), before, k);
    }
}

/// A snapshot of a newer format is refused whatever it holds, and nothing is
/// skipped over in silence: one whose columns do not all belong to a
/// registration is never restored.
pub proof fn law_nothing_is_skipped_over<
    W,
    C,
    D,
    A: Fn(Slots) -> Result<W, String>,
    F: Fn(&C, &Vec<u8>) -> Result<D, String>,
    I: Fn(W, &Entry<C>, D) -> Result<W, String>,
>(
    snapshot: &Snapshot,
    r: &Registry<C>,
    allocate: A,
    decode: F,
    install: I,
    res: Result<W, SnapshotError>,
    k: int,
)
    requires
        r.wf(),
        call_ensures(restore::<W, C, D, A, F, I>, (snapshot, r, allocate, decode, install), res),
    ensures
        snapshot.format_version > 1 ==> res == Err::<W, SnapshotError>(
            SnapshotError::FutureFormat { found: snapshot.format_version, supported: 1 },
        ),
        0 <= k < snapshot.columns@.len() && owner_of(r@, snapshot.columns@[k]@) is Err
            ==> res is Err,
        snapshot.format_version <= 1 && res is Err ==> !(res->Err_0 is FutureFormat),
{
    if res is Ok && 0 <= k < snapshot.columns@.len() {
        lemma_rebuilt_owners(
            r@,
            allocate,
            decode,
            install,
            snapshot@.slots,
            snapshot.columns@,
            res->Ok_0,
            k,
        );
    }
    if snapshot.format_version <= 1 && res is Err && res->Err_0 is FutureFormat {
        let e = res->Err_0;
        let (j, before) = choose|j: int, before: W|
            0 <= j < snapshot.columns@.len() && #[trigger] rebuilt(
                r@,
                allocate,
                decode,
                install,
                snapshot@.slots,
                snapshot.columns@.take(j),
                before,
            ) && rejected(r@, decode, install, snapshot.columns@[j], before, e);
        assert(rejected(r@, decode, install, snapshot.columns@[j], before, e));
    }
}

/// A snapshot reads back from its bytes as it was.
pub proof fn law_a_snapshot_reads_back(
    snapshot: &Snapshot,
    written: Result<Vec<u8>, SnapshotError>,
    bytes: &[u8],
    read: Result<Snapshot, SnapshotError>,
)
    requires
        call_ensures(to_bytes, (snapshot,), written),
        written is Ok && bytes@ == written->Ok_0@,
        call_ensures(from_bytes, (bytes,), read),
    ensures
        read is Ok && read->Ok_0@ == snapshot@,
{
    assert(bytes@ == bincode_written(snapshot@));
}

/// The engine's components have their names for good. Four are saved, and three
/// are not; they are numbered one after the other.
pub proof fn law_the_engines_names_are_fixed<C>(c: EngineComponents<C>, at: nat, i: int)
    requires
        at + 7 <= u16::MAX,
        0 <= i < 7,
    ensures
        engine_entries(c, at).len() == 7,
        engine_entries(c, at)[i].name@ == seq![
            "transform2d"@,
            "velocity"@,
            "collider"@,
            "destructible2d"@,
            "particle"@,
            "player_tag"@,
            "camera_target"@,
        ][i],
        engine_entries(c, at)[i].type_id == seq![
            c.transform2d.0,
            c.velocity.0,
            c.collider.0,
            c.destructible2d.0,
            c.particle,
            c.player_tag,
            c.camera_target,
        ][i],
        engine_entries(c, at)[i].id.0 == at + i,
        engine_entries(c, at)[i].version == 1,
        engine_entries(c, at)[i].replicate is ServerOnly,
        i < 4 <==> engine_entries(c, at)[i].persist is Volatile,
        i >= 4 <==> engine_entries(c, at)[i].persist is Transient,
        i < 4 ==> engine_entries(c, at)[i].codec == Some(
            seq![c.transform2d.1, c.velocity.1, c.collider.1, c.destructible2d.1][i],
        ),
        i >= 4 ==> engine_entries(c, at)[i].codec is None,
{
}

/// Registering several goes on to the first refusal: what comes before it is in,
/// what comes after it is not, and without a refusal all are.
pub proof fn law_registering_stops_at_a_refusal<C>(
    es: Seq<Entry<C>>,
    new: Seq<Entry<C>>,
    i: nat,
) -> (k: int)
    requires
        i <= new.len(),
    ensures
        i <= k <= new.len(),
        registered_all(es, new, i).0 == es + new.subrange(i as int, k),
        registered_all(es, new, i).1 is None <==> k == new.len(),
        k < new.len() ==> registry::registration(
            es + new.subrange(i as int, k),
            new[k].name@,
            new[k].type_id,
        ) == Err::<NameId, RegistryErrorView>(registered_all(es, new, i).1->0),
    decreases new.len() - i,
{
    if i >= new.len() {
        assert(es + new.subrange(i as int, i as int) =~= es);
        i as int
    } else {
        let e = new[i as int];
        if registry::registration(es, e.name@, e.type_id) is Ok {
            let k = law_registering_stops_at_a_refusal(es.push(e), new, i + 1);
            let rest = new.subrange((i + 1) as int, k);
            assert(es.push(e) + rest =~= es + new.subrange(i as int, k));
            k
        } else {
            assert(es + new.subrange(i as int, i as int) =~= es);
            i as int
        }
    }
}

/// The sentences of the errors say what was found and what was expected.
pub proof fn law_errors_say_what_was_found(e: &SnapshotError, s: String)
    requires
        call_ensures(SnapshotError::message, (e,), s),
    ensures
        *e is FutureFormat ==> s@ == "snapshot format "@ + text::decimal(
            e->FutureFormat_found as nat,
        ) + " is newer than supported "@ + text::decimal(e->supported as nat),
        *e is UnknownComponent ==> s@ == "snapshot names component "@ + text::debug_quoted(
            e->UnknownComponent_0@,
        ) + ", which is not registered"@,
        *e is SchemaMismatch ==> s@ == "component "@ + text::debug_quoted(
            e->SchemaMismatch_name@,
        ) + " schema "@ + text::decimal(e->SchemaMismatch_found as nat) + " != expected "@
            + text::decimal(e->expected as nat),
        *e is Corrupt ==> s@ == "snapshot is inconsistent: "@ + e->Corrupt_0@,
        *e is Codec ==> s@ == "codec: "@ + e->Codec_0@,
{
}

/// What is restored of the streams: each name has a stream at the position that
/// was saved last under it, and no other name has one.
pub proof fn law_what_is_restored_of_the_streams(
    snapshot: &Snapshot,
    r: StringHashMap<Pcg32>,
    name: Seq<char>,
    i: int,
)
    requires
        call_ensures(restore_rng, (snapshot,), r),
    ensures
        0 <= i < snapshot.rng@.len() && snapshot.rng@[i].0@ == name && (forall|j: int|
            i < j < snapshot.rng@.len() ==> (#[trigger] snapshot.rng@[j]).0@ != name)
            ==> r@.contains_key(name) && r@[name]@ == (snapshot.rng@[i].1, snapshot.rng@[i].2),
        (forall|j: int| 0 <= j < snapshot.rng@.len() ==> (#[trigger] snapshot.rng@[j]).0@ != name)
            ==> !r@.contains_key(name),
{
    let rng = snapshot@.rng;
    law_the_last_stream_of_a_name_counts(rng, name, i);
    assert(rng.len() == snapshot.rng@.len());
    assert forall|j: int| 0 <= j < rng.len() implies #[trigger] rng[j] == (
        snapshot.rng@[j].0@,
        snapshot.rng@[j].1,
        snapshot.rng@[j].2,
    ) by {
    }
    let views = r@.map_values(|p: Pcg32| p@);
    assert(views.contains_key(name) == r@.contains_key(name));
    if 0 <= i < rng.len() {
        assert(rng[i].0 == snapshot.rng@[i].0@);
        if forall|j: int| i < j < snapshot.rng@.len() ==> (#[trigger] snapshot.rng@[j]).0@ != name {
            assert forall|j: int| i < j < rng.len() implies (#[trigger] rng[j]).0 != name by {
                assert(snapshot.rng@[j].0@ != name);
            }
        }
    }
    if forall|j: int| 0 <= j < snapshot.rng@.len() ==> (#[trigger] snapshot.rng@[j]).0@ != name {
        assert forall|j: int| 0 <= j < rng.len() implies (#[trigger] rng[j]).0 != name by {
            assert(snapshot.rng@[j].0@ != name);
        }
    }
}

/// What adding a stream does: it goes behind the others, under its name, at the
/// position it is at.
pub proof fn law_what_adding_a_stream_does(
    before: RngStreams<'_>,
    name: &str,
    rng: &Pcg32,
    after: RngStreams<'_>,
)
    requires
        call_ensures(RngStreams::add, (before, name, rng), after),
    ensures
        after@.len() == before@.len() + 1,
        after@.drop_last() == before@,
        after@.last() == (name@, rng@.0, rng@.1),
{
    assert(after@.drop_last() =~= before@);
}

/// What registering the engine's components does: in a registry that refuses
/// none, all seven go behind what is there, in their order; a refusal ends it,
/// is answered, and leaves those before it in.
pub proof fn law_what_registering_the_engine_does<C>(
    components: EngineComponents<C>,
    res: Result<(), RegistryError>,
)
    ensures
        forall|r: &mut Registry<C>|
            r.wf() && #[trigger] call_ensures(
                register_engine_components::<C>,
                (r, components),
                res,
            ) ==> {
                let (before, after) = (r@.entries, (*final(r))@.entries);
                let new = engine_entries(components, before.len());
                &&& after.len() >= before.len() && after.take(before.len() as int) == before
                &&& res is Ok <==> after.len() == before.len() + 7
                &&& res is Ok ==> after == before + new
                &&& res is Err ==> after == before + new.take(after.len() - before.len())
                &&& (*final(r))@.aliases == r@.aliases
            },
{
    assert forall|r: &mut Registry<C>|
        r.wf() && #[trigger] call_ensures(
            register_engine_components::<C>,
            (r, components),
            res,
        ) implies {
        let (before, after) = (r@.entries, (*final(r))@.entries);
        let new = engine_entries(components, before.len());
        &&& after.len() >= before.len() && after.take(before.len() as int) == before
        &&& res is Ok <==> after.len() == before.len() + 7
        &&& res is Ok ==> after == before + new
        &&& res is Err ==> after == before + new.take(after.len() - before.len())
    } by {
        let (before, after) = (r@.entries, (*final(r))@.entries);
        let new = engine_entries(components, before.len());
        let k = law_registering_stops_at_a_refusal(before, new, 0);
        assert(new.subrange(0, k) =~= new.take(k));
        assert(after.take(before.len() as int) =~= before);
        assert(new.take(7) =~= new);
    }
}

} // verus!
