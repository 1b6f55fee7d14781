//! The snapshot packet: what actually goes on the wire.
//!
//! * **Scalar core** — tick, flags, and which entity is the recipient's
//!   own. Rides every chunk; a few bytes.
//! * **Bulk header** — the name→id table, proportional to how many
//!   component types are registered. It rides the *first* chunk only.
//! * **Items** — one per entity that entered, left, or changed.
//!
//! Positions, orientations and velocities are held as the quantised levels
//! that go on the wire; turning floats into levels and back is the caller's
//! edge. Everything else about the format is stated here:
//! [`packet_bits`] is what a packet looks like as bits, [`parse_packet`] is
//! what bits mean, and [`law_packet_round_trip`] relates the two.

use crate::ecs::EntityId;
use crate::net::bitpack;
use crate::net::bitpack::{BitError, BitReader, BitWriter};
use crate::net::chunk::Chunkable;
use crate::persist::registry::{Entry, NameId, Registry};
use crate::text;
use vstd::prelude::*;
use vstd::string::*;
use vstd::utf8::*;

verus! {

/// Bits per position axis. Over a 1 km sector this is ~1.5 cm.
pub const POS_BITS: u32 = 16;

/// Bits per rotation *component*, over ±1. The x, y and z components are
/// sent and `w` is recovered as a positive root on the far side.
pub const ROT_BITS: u32 = 12;

/// Bits per velocity axis.
pub const VEL_BITS: u32 = 16;

/// What happened to one entity since the client's baseline.
#[derive(Copy, Clone, Debug, PartialEq, Eq, Structural)]
pub enum ItemKind {
    /// Newly visible, or newly existing. Carries the full [`EntityId`],
    /// because a reused index is a different entity and the client must
    /// be able to tell.
    Entered,
    /// Still visible, state changed. Carries the index only — a live
    /// entity's generation never changes.
    Updated,
    /// No longer visible, or despawned. Carries the full [`EntityId`] for
    /// the same reason [`ItemKind::Entered`] does.
    Left,
}

/// Three quantised components.
#[derive(Copy, Clone, Debug, PartialEq, Eq, Structural)]
pub struct Levels {
    pub x: u16,
    pub y: u16,
    pub z: u16,
}

/// One entity's worth of snapshot.
#[derive(Copy, Clone, Debug, PartialEq, Eq, Structural)]
pub struct EntityItem {
    pub kind: ItemKind,
    pub entity: EntityId,
    /// Sector-local position, [`POS_BITS`] per axis.
    pub pos: Levels,
    /// Orientation, [`ROT_BITS`] per component.
    pub rot: Levels,
    /// Velocity, [`VEL_BITS`] per axis.
    pub vel: Levels,
    /// Which component this item's payload belongs to, interned against
    /// the table in the packet header.
    pub component: NameId,
}

/// No state at all.
pub open spec fn blank() -> Levels {
    Levels { x: 0, y: 0, z: 0 }
}

/// A departure of `entity`, which carries no state.
pub open spec fn departure(entity: EntityId) -> EntityItem {
    EntityItem {
        kind: ItemKind::Left,
        entity,
        pos: blank(),
        rot: blank(),
        vel: blank(),
        component: NameId(0),
    }
}

impl EntityItem {
    /// A `Left` item, which carries no state.
    pub fn left(entity: EntityId) -> (item: Self)
        ensures
            item == departure(entity),
    {
        let none = Levels { x: 0, y: 0, z: 0 };
        EntityItem {
            kind: ItemKind::Left,
            entity,
            pos: none,
            rot: none,
            vel: none,
            component: NameId(0),
        }
    }

    /// Whether `entity.generation` came off the wire or was invented.
    ///
    /// `Updated` items carry the index only, so a decoded one has no
    /// generation to report and the field is left at zero. That zero is
    /// *not* a generation: it is the absence of one.
    pub fn generation_is_authoritative(&self) -> (r: bool)
        ensures
            r == (self.kind != ItemKind::Updated),
    {
        self.kind != ItemKind::Updated
    }

    /// What a client should key this item by: the index alone, which is the
    /// stable identity within a client's view because `Entered` and `Left`
    /// bracket every change of tenant.
    pub fn key(&self) -> (k: u32)
        ensures
            k == self.entity.index,
    {
        self.entity.index
    }

    /// Whether the rotation components fit their bits.
    pub open spec fn fits(self) -> bool {
        self.rot.x < 4096 && self.rot.y < 4096 && self.rot.z < 4096
    }
}

/// One entry of the name→id table.
#[derive(Debug, PartialEq, Eq)]
pub struct NameEntry {
    pub name: String,
    pub id: NameId,
}

#[verifier::ext_equal]
pub struct NameEntryView {
    pub name: Seq<char>,
    pub id: NameId,
}

impl View for NameEntry {
    type V = NameEntryView;

    open spec fn view(&self) -> NameEntryView {
        NameEntryView { name: self.name@, id: self.id }
    }
}

impl Clone for NameEntry {
    fn clone(&self) -> (r: Self)
        ensures
            r == *self,
    {
        NameEntry { name: self.name.clone(), id: self.id }
    }
}

/// A snapshot for one client at one tick.
#[derive(Debug, PartialEq, Eq)]
pub struct SnapshotPacket {
    /// Simulation tick.
    pub tick: u32,
    /// True on the first chunk of a send. Forwarded onto the wire so the
    /// receiver can tell "blanked for chunking" from "genuinely empty".
    pub is_header: bool,
    /// True when this is a full keyframe rather than a delta.
    pub keyframe: bool,
    /// The recipient's own entity.
    pub your_entity: EntityId,
    /// Component name→id mapping; rides the first chunk only.
    pub names: Vec<NameEntry>,
    /// The splittable part.
    pub items: Vec<EntityItem>,
}

#[verifier::ext_equal]
pub struct PacketView {
    pub tick: u32,
    pub is_header: bool,
    pub keyframe: bool,
    pub your_entity: EntityId,
    pub names: Seq<NameEntryView>,
    pub items: Seq<EntityItem>,
}

impl View for SnapshotPacket {
    type V = PacketView;

    open spec fn view(&self) -> PacketView {
        PacketView {
            tick: self.tick,
            is_header: self.is_header,
            keyframe: self.keyframe,
            your_entity: self.your_entity,
            names: self.names@.map_values(|e: NameEntry| e@),
            items: self.items@,
        }
    }
}

impl Clone for SnapshotPacket {
    fn clone(&self) -> (r: Self)
        ensures
            r@ == self@,
    {
        SnapshotPacket {
            tick: self.tick,
            is_header: self.is_header,
            keyframe: self.keyframe,
            your_entity: self.your_entity,
            names: copy_names(&self.names),
            items: copy_items(self.items.as_slice()),
        }
    }
}

fn copy_names(names: &Vec<NameEntry>) -> (r: Vec<NameEntry>)
    ensures
        r@ == names@,
{
    let mut out: Vec<NameEntry> = Vec::new();
    let mut i: usize = 0;
    while i < names.len()
        invariant
            i <= names@.len(),
            out@ == names@.take(i as int),
        decreases names@.len() - i,
    {
        out.push(names[i].clone());
        i = i + 1;
        assert(out@ =~= names@.take(i as int));
    }
    assert(names@.take(i as int) =~= names@);
    out
}

fn copy_items(items: &[EntityItem]) -> (r: Vec<EntityItem>)
    ensures
        r@ == items@,
{
    let mut out: Vec<EntityItem> = Vec::new();
    let mut i: usize = 0;
    while i < items.len()
        invariant
            i <= items@.len(),
            out@ == items@.take(i as int),
        decreases items@.len() - i,
    {
        out.push(items[i]);
        i = i + 1;
        assert(out@ =~= items@.take(i as int));
    }
    assert(items@.take(i as int) =~= items@);
    out
}

// ---------------------------------------------------------------------------
// The format, as bits.
// ---------------------------------------------------------------------------

/// The number of an item's kind on the wire.
pub open spec fn kind_code(k: ItemKind) -> nat {
    match k {
        ItemKind::Entered => 0,
        ItemKind::Updated => 1,
        ItemKind::Left => 2,
    }
}

/// Three components, each in `n` bits.
pub open spec fn levels_bits(l: Levels, n: nat) -> Seq<bool> {
    bitpack::to_bits(l.x as nat, n) + (bitpack::to_bits(l.y as nat, n) + bitpack::to_bits(l.z as nat, n))
}

/// One name: its number, its length in bytes, its bytes.
pub open spec fn name_bits(e: NameEntryView) -> Seq<bool> {
    bitpack::varint_bits(e.id.0 as nat) + (bitpack::varint_bits(encode_utf8(e.name).len()) + bitpack::bits_of(
        encode_utf8(e.name),
    ))
}

/// The generation of an item, where its kind carries one.
pub open spec fn generation_bits(item: EntityItem) -> Seq<bool> {
    if item.kind != ItemKind::Updated {
        bitpack::varint_bits(item.entity.generation as nat)
    } else {
        Seq::empty()
    }
}

/// The state of an item, where its kind carries any.
pub open spec fn state_bits(item: EntityItem) -> Seq<bool> {
    if item.kind != ItemKind::Left {
        bitpack::varint_bits(item.component.0 as nat) + (levels_bits(item.pos, 16) + (levels_bits(
            item.rot,
            12,
        ) + levels_bits(item.vel, 16)))
    } else {
        Seq::empty()
    }
}

/// One item.
pub open spec fn item_bits(item: EntityItem) -> Seq<bool> {
    bitpack::to_bits(kind_code(item.kind), 2) + (bitpack::varint_bits(item.entity.index as nat) + (generation_bits(
        item,
    ) + state_bits(item)))
}

/// The names in turn.
pub open spec fn names_bits(names: Seq<NameEntryView>) -> Seq<bool>
    decreases names.len(),
{
    if names.len() == 0 {
        Seq::empty()
    } else {
        names_bits(names.drop_last()) + name_bits(names.last())
    }
}

/// The items in turn.
pub open spec fn items_bits(items: Seq<EntityItem>) -> Seq<bool>
    decreases items.len(),
{
    if items.len() == 0 {
        Seq::empty()
    } else {
        items_bits(items.drop_last()) + item_bits(items.last())
    }
}

/// The scalar core.
pub open spec fn core_bits(p: PacketView) -> Seq<bool> {
    bitpack::to_bits(p.tick as nat, 32) + (seq![p.is_header] + (seq![p.keyframe] + (bitpack::varint_bits(
        p.your_entity.index as nat,
    ) + bitpack::varint_bits(p.your_entity.generation as nat))))
}

/// A whole packet.
pub open spec fn packet_bits(p: PacketView) -> Seq<bool> {
    core_bits(p) + (bitpack::varint_bits(p.names.len()) + (names_bits(p.names) + (bitpack::varint_bits(p.items.len())
        + items_bits(p.items))))
}

/// The name table of a registry: the components that reach clients, in
/// registration order.
pub open spec fn wire_names<C>(es: Seq<Entry<C>>) -> Seq<NameEntryView>
    decreases es.len(),
{
    if es.len() == 0 {
        Seq::empty()
    } else if es.last().replicate.is_sent() {
        wire_names(es.drop_last()).push(NameEntryView { name: es.last().name@, id: es.last().id })
    } else {
        wire_names(es.drop_last())
    }
}

impl SnapshotPacket {
    /// Build the name table from a registry, with only the components that
    /// actually reach clients.
    ///
    /// A server-only component has no business appearing in a table sent to
    /// players: it is wasted bytes, and it tells anyone reading the traffic
    /// what the server tracks internally.
    pub fn name_table<C>(registry: &Registry<C>) -> (table: Vec<NameEntry>)
        ensures
            table@.map_values(|n: NameEntry| n@) == wire_names(registry@.entries),
    {
        let entries: &[Entry<C>] = registry.entries();
        let ghost es = registry@.entries;
        let mut table: Vec<NameEntry> = Vec::new();
        let mut i: usize = 0;
        proof {
            assert(es.take(0) =~= Seq::<Entry<C>>::empty());
            assert(table@.map_values(|n: NameEntry| n@) =~= wire_names(es.take(0)));
        }
        while i < entries.len()
            invariant
                i <= entries@.len(),
                es == entries@,
                table@.map_values(|n: NameEntry| n@) == wire_names(es.take(i as int)),
            decreases entries@.len() - i,
        {
            let e: &Entry<C> = &entries[i];
            let ghost before = table@.map_values(|n: NameEntry| n@);
            proof {
                assert(es.take(i + 1).drop_last() =~= es.take(i as int));
                assert(es.take(i + 1).last() == *e);
            }
            if e.replicate.on_the_wire() {
                table.push(NameEntry { name: e.name.to_owned(), id: e.id });
                assert(table@.map_values(|n: NameEntry| n@) =~= before.push(
                    NameEntryView { name: e.name@, id: e.id },
                ));
            }
            i = i + 1;
        }
        assert(es.take(i as int) =~= es);
        table
    }

    /// Encode to bits, the last byte padded with zeros.
    pub fn encode(&self) -> (bytes: Vec<u8>)
        ensures
            bytes@.len() == (packet_bits(self@).len() + 7) / 8,
            bitpack::bits_of(bytes@) == packet_bits(self@) + bitpack::zeros(
                (8 * bytes@.len() - packet_bits(self@).len()) as nat,
            ),
    {
        let mut w = BitWriter::new();
        self.encode_into(&mut w);
        w.finish()
    }

    /// Encode into a reused writer. The per-client, per-tick path.
    #[verifier::rlimit(30)]
    pub fn encode_into(&self, w: &mut BitWriter)
        ensures
            final(w).wf(),
            final(w)@ == packet_bits(self@),
    {
        w.clear();
        w.write_bits(self.tick as u64, 32);
        w.write_bit(self.is_header);
        w.write_bit(self.keyframe);
        w.write_varint(self.your_entity.index as u64);
        w.write_varint(self.your_entity.generation as u64);
        assert(w@ =~= core_bits(self@));
        // The table is present only when this chunk is the header. A
        // continuation chunk writes a zero count.
        w.write_varint(self.names.len() as u64);
        let ghost head = core_bits(self@) + bitpack::varint_bits(self@.names.len());
        let mut i: usize = 0;
        assert(w@ =~= head + names_bits(self@.names.take(0)));
        while i < self.names.len()
            invariant
                i <= self.names@.len(),
                w.wf(),
                w@ == head + names_bits(self@.names.take(i as int)),
            decreases self.names@.len() - i,
        {
            let ghost done = self@.names.take(i as int);
            write_name(w, &self.names[i]);
            proof {
                let next = self@.names.take(i + 1);
                assert(next.drop_last() =~= done);
                assert(next.last() == self.names@[i as int]@);
                assert(w@ =~= head + (names_bits(done) + name_bits(next.last())));
            }
            i = i + 1;
        }
        assert(self@.names.take(i as int) =~= self@.names);
        w.write_varint(self.items.len() as u64);
        let ghost body = head + names_bits(self@.names) + bitpack::varint_bits(self@.items.len());
        let mut j: usize = 0;
        assert(w@ =~= body + items_bits(self@.items.take(0)));
        while j < self.items.len()
            invariant
                j <= self.items@.len(),
                w.wf(),
                w@ == body + items_bits(self@.items.take(j as int)),
            decreases self.items@.len() - j,
        {
            let ghost done = self@.items.take(j as int);
            write_item(w, &self.items[j]);
            proof {
                let next = self@.items.take(j + 1);
                assert(next.drop_last() =~= done);
                assert(w@ =~= body + (items_bits(done) + item_bits(next.last())));
            }
            j = j + 1;
        }
        assert(self@.items.take(j as int) =~= self@.items);
        assert(w@ =~= packet_bits(self@));
    }
}

fn write_name(w: &mut BitWriter, entry: &NameEntry)
    requires
        old(w).wf(),
    ensures
        final(w).wf(),
        final(w)@ == old(w)@ + name_bits(entry@),
{
    w.write_varint(entry.id.0 as u64);
    let bytes: &[u8] = entry.name.as_str().as_bytes();
    w.write_varint(bytes.len() as u64);
    let ghost head = w@;
    let mut i: usize = 0;
    proof {
        assert(bitpack::bits_of(bytes@.take(0)) =~= Seq::<bool>::empty());
        assert(w@ =~= head + bitpack::bits_of(bytes@.take(0)));
    }
    while i < bytes.len()
        invariant
            i <= bytes@.len(),
            w.wf(),
            w@ == head + bitpack::bits_of(bytes@.take(i as int)),
        decreases bytes@.len() - i,
    {
        w.write_bits(bytes[i] as u64, 8);
        proof {
            let done = bytes@.take(i as int);
            bitpack::lemma_bits_of_push(done, bytes@[i as int]);
            assert(bytes@.take(i + 1) =~= done.push(bytes@[i as int]));
            assert(w@ =~= head + bitpack::bits_of(bytes@.take(i + 1)));
        }
        i = i + 1;
    }
    assert(bytes@.take(i as int) =~= bytes@);
    assert(w@ =~= old(w)@ + name_bits(entry@));
}

fn write_levels(w: &mut BitWriter, l: &Levels, bits: u32)
    requires
        old(w).wf(),
        bits <= 64,
    ensures
        final(w).wf(),
        final(w)@ == old(w)@ + levels_bits(*l, bits as nat),
{
    w.write_bits(l.x as u64, bits);
    w.write_bits(l.y as u64, bits);
    w.write_bits(l.z as u64, bits);
    assert(w@ =~= old(w)@ + levels_bits(*l, bits as nat));
}

fn write_item(w: &mut BitWriter, item: &EntityItem)
    requires
        old(w).wf(),
    ensures
        final(w).wf(),
        final(w)@ == old(w)@ + item_bits(*item),
{
    let kind: u64 = match item.kind {
        ItemKind::Entered => 0,
        ItemKind::Updated => 1,
        ItemKind::Left => 2,
    };
    w.write_bits(kind, 2);
    w.write_varint(item.entity.index as u64);
    let ghost head = w@;
    // Generation rides arrivals and departures only: a live entity's
    // generation cannot change, so an update would be paying for a constant.
    if item.kind != ItemKind::Updated {
        w.write_varint(item.entity.generation as u64);
    }
    assert(w@ =~= head + generation_bits(*item));
    if item.kind != ItemKind::Left {
        w.write_varint(item.component.0 as u64);
        write_levels(w, &item.pos, POS_BITS);
        write_levels(w, &item.rot, ROT_BITS);
        write_levels(w, &item.vel, VEL_BITS);
    }
    assert(w@ =~= head + (generation_bits(*item) + state_bits(*item)));
    assert(w@ =~= old(w)@ + item_bits(*item));
}

// ---------------------------------------------------------------------------
// The format, read back.
// ---------------------------------------------------------------------------

/// A number of `n` bits off the front of `s`.
pub open spec fn parse_number(s: Seq<bool>, n: nat) -> Result<(nat, Seq<bool>), BitError> {
    if s.len() < n {
        Err(BitError::Truncated)
    } else {
        Ok((bitpack::from_bits(s.take(n as int)), s.skip(n as int)))
    }
}

/// A varint off the front of `s`.
pub open spec fn parse_length(s: Seq<bool>) -> Result<(nat, Seq<bool>), BitError> {
    match bitpack::parse_varint(s, 0) {
        (Ok(v), rest) => Ok((v, rest)),
        (Err(e), _) => Err(e),
    }
}

/// The first `n` bytes of `s`.
pub open spec fn leading_bytes(s: Seq<bool>, n: nat) -> Seq<u8> {
    Seq::new(n, |i: int| bitpack::from_bits(s.subrange(8 * i, 8 * i + 8)) as u8)
}

/// One name off the front of `s`. A name cannot be longer than what is left
/// of the buffer.
pub open spec fn parse_name(s: Seq<bool>) -> Result<(NameEntryView, Seq<bool>), BitError> {
    match parse_length(s) {
        Err(e) => Err(e),
        Ok((id, s1)) => match parse_length(s1) {
            Err(e) => Err(e),
            Ok((len, s2)) => {
                let bytes = leading_bytes(s2, len);
                if len > s2.len() / 8 {
                    Err(BitError::Truncated)
                } else if !valid_utf8(bytes) {
                    Err(BitError::OutOfRange)
                } else {
                    Ok(
                        (
                            NameEntryView {
                                name: decode_utf8(bytes),
                                id: NameId((id % 0x1_0000) as u16),
                            },
                            s2.skip(8 * len as int),
                        ),
                    )
                }
            },
        },
    }
}

/// Three components of `n` bits each.
pub open spec fn parse_levels(s: Seq<bool>, n: nat) -> Result<(Levels, Seq<bool>), BitError> {
    match parse_number(s, n) {
        Err(e) => Err(e),
        Ok((x, s1)) => match parse_number(s1, n) {
            Err(e) => Err(e),
            Ok((y, s2)) => match parse_number(s2, n) {
                Err(e) => Err(e),
                Ok((z, s3)) => Ok((Levels { x: x as u16, y: y as u16, z: z as u16 }, s3)),
            },
        },
    }
}

/// The state of an item that has one.
pub open spec fn parse_state(s: Seq<bool>, kind: ItemKind, entity: EntityId) -> Result<
    (EntityItem, Seq<bool>),
    BitError,
> {
    match parse_length(s) {
        Err(e) => Err(e),
        Ok((component, s1)) => match parse_levels(s1, 16) {
            Err(e) => Err(e),
            Ok((pos, s2)) => match parse_levels(s2, 12) {
                Err(e) => Err(e),
                Ok((rot, s3)) => match parse_levels(s3, 16) {
                    Err(e) => Err(e),
                    Ok((vel, s4)) => Ok(
                        (
                            EntityItem {
                                kind,
                                entity,
                                pos,
                                rot,
                                vel,
                                component: NameId((component % 0x1_0000) as u16),
                            },
                            s4,
                        ),
                    ),
                },
            },
        },
    }
}

/// What follows an item's index.
pub open spec fn parse_body(s: Seq<bool>, kind: ItemKind, index: nat) -> Result<
    (EntityItem, Seq<bool>),
    BitError,
> {
    let index = (index % 0x1_0000_0000) as u32;
    if kind == ItemKind::Updated {
        parse_state(s, kind, EntityId { index, generation: 0 })
    } else {
        match parse_length(s) {
            Err(e) => Err(e),
            Ok((generation, s1)) => {
                let entity = EntityId { index, generation: (generation % 0x1_0000_0000) as u32 };
                if kind == ItemKind::Left {
                    Ok((departure(entity), s1))
                } else {
                    parse_state(s1, kind, entity)
                }
            },
        }
    }
}

/// One item off the front of `s`.
pub open spec fn parse_item(s: Seq<bool>) -> Result<(EntityItem, Seq<bool>), BitError> {
    match parse_number(s, 2) {
        Err(e) => Err(e),
        Ok((code, s1)) => if code > 2 {
            Err(BitError::OutOfRange)
        } else {
            let kind = if code == 0 {
                ItemKind::Entered
            } else if code == 1 {
                ItemKind::Updated
            } else {
                ItemKind::Left
            };
            match parse_length(s1) {
                Err(e) => Err(e),
                Ok((index, s2)) => parse_body(s2, kind, index),
            }
        },
    }
}

/// `n` names in turn.
pub open spec fn parse_names(s: Seq<bool>, n: nat) -> Result<
    (Seq<NameEntryView>, Seq<bool>),
    BitError,
>
    decreases n,
{
    if n == 0 {
        Ok((Seq::empty(), s))
    } else {
        match parse_name(s) {
            Err(e) => Err(e),
            Ok((first, s1)) => match parse_names(s1, (n - 1) as nat) {
                Err(e) => Err(e),
                Ok((rest, s2)) => Ok((seq![first] + rest, s2)),
            },
        }
    }
}

/// `n` items in turn.
pub open spec fn parse_items(s: Seq<bool>, n: nat) -> Result<
    (Seq<EntityItem>, Seq<bool>),
    BitError,
>
    decreases n,
{
    if n == 0 {
        Ok((Seq::empty(), s))
    } else {
        match parse_item(s) {
            Err(e) => Err(e),
            Ok((first, s1)) => match parse_items(s1, (n - 1) as nat) {
                Err(e) => Err(e),
                Ok((rest, s2)) => Ok((seq![first] + rest, s2)),
            },
        }
    }
}

/// The scalar core off the front of `s`, without names and items.
pub open spec fn parse_core(s: Seq<bool>) -> Result<(PacketView, Seq<bool>), BitError> {
    match parse_number(s, 32) {
        Err(e) => Err(e),
        Ok((tick, s1)) => if s1.len() < 2 {
            Err(BitError::Truncated)
        } else {
            match parse_length(s1.skip(2)) {
                Err(e) => Err(e),
                Ok((index, s2)) => match parse_length(s2) {
                    Err(e) => Err(e),
                    Ok((generation, s3)) => Ok(
                        (
                            PacketView {
                                tick: tick as u32,
                                is_header: s1[0],
                                keyframe: s1[1],
                                your_entity: EntityId {
                                    index: (index % 0x1_0000_0000) as u32,
                                    generation: (generation % 0x1_0000_0000) as u32,
                                },
                                names: Seq::empty(),
                                items: Seq::empty(),
                            },
                            s3,
                        ),
                    ),
                },
            }
        },
    }
}

/// A counted list of names; more than `max` are refused before any is read.
pub open spec fn parse_name_table(s: Seq<bool>, max: nat) -> Result<
    (Seq<NameEntryView>, Seq<bool>),
    BitError,
> {
    match parse_length(s) {
        Err(e) => Err(e),
        Ok((count, s1)) => if count > max {
            Err(BitError::OutOfRange)
        } else {
            parse_names(s1, count)
        },
    }
}

/// A counted list of items; more than `max` are refused before any is read.
pub open spec fn parse_item_list(s: Seq<bool>, max: nat) -> Result<
    (Seq<EntityItem>, Seq<bool>),
    BitError,
> {
    match parse_length(s) {
        Err(e) => Err(e),
        Ok((count, s1)) => if count > max {
            Err(BitError::OutOfRange)
        } else {
            parse_items(s1, count)
        },
    }
}

/// What the bits of a datagram mean. Bits after the last item are ignored.
pub open spec fn parse_packet(s: Seq<bool>, max_names: nat, max_items: nat) -> Result<
    PacketView,
    BitError,
> {
    match parse_core(s) {
        Err(e) => Err(e),
        Ok((core, s1)) => match parse_name_table(s1, max_names) {
            Err(e) => Err(e),
            Ok((names, s2)) => match parse_item_list(s2, max_items) {
                Err(e) => Err(e),
                Ok((items, _)) => Ok(PacketView { names, items, ..core }),
            },
        },
    }
}

fn read_levels(r: &mut BitReader<'_>, bits: u32) -> (res: Result<Levels, BitError>)
    requires
        old(r).wf(),
        bits <= 16,
    ensures
        final(r).wf(),
        match res {
            Ok(l) => parse_levels(old(r)@, bits as nat) == Ok::<(Levels, Seq<bool>), BitError>(
                (l, final(r)@),
            ),
            Err(e) => parse_levels(old(r)@, bits as nat) == Err::<(Levels, Seq<bool>), BitError>(e),
        },
{
    proof {
        vstd::arithmetic::power2::lemma2_to64();
        if bits < 16 {
            vstd::arithmetic::power2::lemma_pow2_strictly_increases(bits as nat, 16);
        }
    }
    let x: u64 = match r.read_bits(bits) {
        Ok(v) => v,
        Err(e) => {
            return Err(e);
        },
    };
    let y: u64 = match r.read_bits(bits) {
        Ok(v) => v,
        Err(e) => {
            return Err(e);
        },
    };
    let z: u64 = match r.read_bits(bits) {
        Ok(v) => v,
        Err(e) => {
            return Err(e);
        },
    };
    Ok(Levels { x: x as u16, y: y as u16, z: z as u16 })
}

fn read_state(r: &mut BitReader<'_>, kind: ItemKind, entity: EntityId) -> (res: Result<
    EntityItem,
    BitError,
>)
    requires
        old(r).wf(),
    ensures
        final(r).wf(),
        match res {
            Ok(item) => parse_state(old(r)@, kind, entity) == Ok::<
                (EntityItem, Seq<bool>),
                BitError,
            >((item, final(r)@)),
            Err(e) => parse_state(old(r)@, kind, entity) == Err::<
                (EntityItem, Seq<bool>),
                BitError,
            >(e),
        },
{
    let component: u64 = match r.read_varint() {
        Ok(v) => v,
        Err(e) => {
            return Err(e);
        },
    };
    let pos = match read_levels(r, POS_BITS) {
        Ok(v) => v,
        Err(e) => {
            return Err(e);
        },
    };
    let rot = match read_levels(r, ROT_BITS) {
        Ok(v) => v,
        Err(e) => {
            return Err(e);
        },
    };
    let vel = match read_levels(r, VEL_BITS) {
        Ok(v) => v,
        Err(e) => {
            return Err(e);
        },
    };
    Ok(EntityItem { kind, entity, pos, rot, vel, component: NameId((component % 0x1_0000) as u16) })
}

fn read_item(r: &mut BitReader<'_>) -> (res: Result<EntityItem, BitError>)
    requires
        old(r).wf(),
    ensures
        final(r).wf(),
        match res {
            Ok(item) => parse_item(old(r)@) == Ok::<(EntityItem, Seq<bool>), BitError>(
                (item, final(r)@),
            ),
            Err(e) => parse_item(old(r)@) == Err::<(EntityItem, Seq<bool>), BitError>(e),
        },
{
    let code: u64 = match r.read_bits(2) {
        Ok(v) => v,
        Err(e) => {
            return Err(e);
        },
    };
    let kind = if code == 0 {
        ItemKind::Entered
    } else if code == 1 {
        ItemKind::Updated
    } else if code == 2 {
        ItemKind::Left
    } else {
        return Err(BitError::OutOfRange);
    };
    let index: u64 = match r.read_varint() {
        Ok(v) => v,
        Err(e) => {
            return Err(e);
        },
    };
    let index: u32 = (index % 0x1_0000_0000) as u32;
    // An update carries no generation. Zero here stands for "absent".
    let generation: u64 = if kind == ItemKind::Updated {
        0
    } else {
        match r.read_varint() {
            Ok(v) => v,
            Err(e) => {
                return Err(e);
            },
        }
    };
    let entity = EntityId { index, generation: (generation % 0x1_0000_0000) as u32 };
    if kind == ItemKind::Left {
        return Ok(EntityItem::left(entity));
    }
    read_state(r, kind, entity)
}

fn read_name(r: &mut BitReader<'_>) -> (res: Result<NameEntry, BitError>)
    requires
        old(r).wf(),
    ensures
        final(r).wf(),
        match res {
            Ok(entry) => parse_name(old(r)@) == Ok::<(NameEntryView, Seq<bool>), BitError>(
                (entry@, final(r)@),
            ),
            Err(e) => parse_name(old(r)@) == Err::<(NameEntryView, Seq<bool>), BitError>(e),
        },
{
    let id: u64 = match r.read_varint() {
        Ok(v) => v,
        Err(e) => {
            return Err(e);
        },
    };
    let len: u64 = match r.read_varint() {
        Ok(v) => v,
        Err(e) => {
            return Err(e);
        },
    };
    // A name cannot be longer than the remaining buffer, so this is checked
    // before allocating rather than after failing.
    if len > (r.bits_remaining() / 8) as u64 {
        return Err(BitError::Truncated);
    }
    let ghost start = r@;
    let mut buf: Vec<u8> = Vec::with_capacity(len as usize);
    let mut i: u64 = 0;
    proof {
        assert(start.skip(0) =~= start);
        assert(buf@ =~= leading_bytes(start, len as nat).take(0));
    }
    while i < len
        invariant
            i <= len,
            len <= start.len() / 8,
            r.wf(),
            r@ == start.skip(8 * i as int),
            buf@ == leading_bytes(start, len as nat).take(i as int),
        decreases len - i,
    {
        match r.read_bits(8) {
            Ok(v) => {
                proof {
                    vstd::arithmetic::power2::lemma2_to64();
                    let all = leading_bytes(start, len as nat);
                    assert(start.skip(8 * i as int).take(8) =~= start.subrange(
                        8 * i as int,
                        8 * i + 8,
                    ));
                    assert(all[i as int] == v as u8);
                    assert(all.take(i + 1) =~= all.take(i as int).push(v as u8));
                    assert(r@ =~= start.skip(8 * (i + 1)));
                }
                buf.push(v as u8);
            },
            Err(e) => {
                assert(false);
                return Err(e);
            },
        }
        i = i + 1;
    }
    proof {
        let all = leading_bytes(start, len as nat);
        assert(all.take(len as int) =~= all);
    }
    match text::string_from_utf8(buf) {
        Some(name) => Ok(NameEntry { name, id: NameId((id % 0x1_0000) as u16) }),
        None => Err(BitError::OutOfRange),
    }
}

fn read_name_table(r: &mut BitReader<'_>, max: usize) -> (res: Result<Vec<NameEntry>, BitError>)
    requires
        old(r).wf(),
    ensures
        final(r).wf(),
        match res {
            Ok(names) => parse_name_table(old(r)@, max as nat) == Ok::<
                (Seq<NameEntryView>, Seq<bool>),
                BitError,
            >((names@.map_values(|e: NameEntry| e@), final(r)@)),
            Err(e) => parse_name_table(old(r)@, max as nat) == Err::<
                (Seq<NameEntryView>, Seq<bool>),
                BitError,
            >(e),
        },
{
    let count: u64 = match r.read_varint() {
        Ok(v) => v,
        Err(e) => {
            return Err(e);
        },
    };
    if count > max as u64 {
        return Err(BitError::OutOfRange);
    }
    let ghost start = r@;
    let ghost view = |e: NameEntry| e@;
    let mut names: Vec<NameEntry> = Vec::with_capacity(count as usize);
    let mut i: u64 = 0;
    proof {
        assert(names@.map_values(view) =~= Seq::<NameEntryView>::empty());
        if let Ok((rest, s)) = parse_names(start, count as nat) {
            assert(Seq::<NameEntryView>::empty() + rest =~= rest);
        }
    }
    while i < count
        invariant
            i <= count,
            r.wf(),
            view == (|e: NameEntry| e@),
            parse_names(start, count as nat) == (match parse_names(r@, (count - i) as nat) {
                Ok((rest, s)) => Ok::<(Seq<NameEntryView>, Seq<bool>), BitError>(
                    (names@.map_values(view) + rest, s),
                ),
                Err(e) => Err::<(Seq<NameEntryView>, Seq<bool>), BitError>(e),
            }),
            parse_name_table(old(r)@, max as nat) == parse_names(start, count as nat),
        decreases count - i,
    {
        let ghost before = names@.map_values(view);
        match read_name(r) {
            Ok(entry) => {
                names.push(entry);
                proof {
                    assert(names@.map_values(view) =~= before.push(entry@));
                    if let Ok((rest, s)) = parse_names(r@, (count - i - 1) as nat) {
                        assert(before + (seq![entry@] + rest) =~= before.push(entry@) + rest);
                    }
                }
            },
            Err(e) => {
                return Err(e);
            },
        }
        i = i + 1;
    }
    proof {
        assert(names@.map_values(view) + Seq::<NameEntryView>::empty() =~= names@.map_values(view));
    }
    Ok(names)
}

#[verifier::rlimit(30)]
fn read_item_list(r: &mut BitReader<'_>, max: usize) -> (res: Result<Vec<EntityItem>, BitError>)
    requires
        old(r).wf(),
    ensures
        final(r).wf(),
        match res {
            Ok(items) => parse_item_list(old(r)@, max as nat) == Ok::<
                (Seq<EntityItem>, Seq<bool>),
                BitError,
            >((items@, final(r)@)),
            Err(e) => parse_item_list(old(r)@, max as nat) == Err::<
                (Seq<EntityItem>, Seq<bool>),
                BitError,
            >(e),
        },
{
    let count: u64 = match r.read_varint() {
        Ok(v) => v,
        Err(e) => {
            return Err(e);
        },
    };
    if count > max as u64 {
        return Err(BitError::OutOfRange);
    }
    let ghost start = r@;
    let mut items: Vec<EntityItem> = Vec::with_capacity(count as usize);
    let mut i: u64 = 0;
    proof {
        if let Ok((rest, s)) = parse_items(start, count as nat) {
            assert(Seq::<EntityItem>::empty() + rest =~= rest);
        }
    }
    while i < count
        invariant
            i <= count,
            r.wf(),
            parse_items(start, count as nat) == (match parse_items(r@, (count - i) as nat) {
                Ok((rest, s)) => Ok::<(Seq<EntityItem>, Seq<bool>), BitError>((items@ + rest, s)),
                Err(e) => Err::<(Seq<EntityItem>, Seq<bool>), BitError>(e),
            }),
            parse_item_list(old(r)@, max as nat) == parse_items(start, count as nat),
        decreases count - i,
    {
        let ghost before = items@;
        match read_item(r) {
            Ok(item) => {
                items.push(item);
                proof {
                    if let Ok((rest, s)) = parse_items(r@, (count - i - 1) as nat) {
                        assert(before + (seq![item] + rest) =~= before.push(item) + rest);
                    }
                }
            },
            Err(e) => {
                return Err(e);
            },
        }
        i = i + 1;
    }
    assert(items@ + Seq::<EntityItem>::empty() =~= items@);
    Ok(items)
}

impl SnapshotPacket {
    /// Decode a packet off the wire.
    ///
    /// `max_names` and `max_items` bound what a peer can make this
    /// allocate: a hostile length prefix is refused before anything is
    /// allocated for it.
    pub fn decode(bytes: &[u8], max_names: usize, max_items: usize) -> (res: Result<Self, BitError>)
        requires
            bytes@.len() * 8 <= usize::MAX,
        ensures
            match res {
                Ok(p) => parse_packet(bitpack::bits_of(bytes@), max_names as nat, max_items as nat) == Ok::<
                    PacketView,
                    BitError,
                >(p@),
                Err(e) => parse_packet(bitpack::bits_of(bytes@), max_names as nat, max_items as nat)
                    == Err::<PacketView, BitError>(e),
            },
    {
        let mut r = BitReader::new(bytes);
        let tick: u64 = match r.read_bits(32) {
            Ok(v) => v,
            Err(e) => {
                return Err(e);
            },
        };
        proof {
            vstd::arithmetic::power2::lemma2_to64();
        }
        let ghost flags = r@;
        let is_header = match r.read_bit() {
            Ok(v) => v,
            Err(e) => {
                return Err(e);
            },
        };
        let keyframe = match r.read_bit() {
            Ok(v) => v,
            Err(e) => {
                return Err(e);
            },
        };
        assert(r@ =~= flags.skip(2));
        let index: u64 = match r.read_varint() {
            Ok(v) => v,
            Err(e) => {
                return Err(e);
            },
        };
        let generation: u64 = match r.read_varint() {
            Ok(v) => v,
            Err(e) => {
                return Err(e);
            },
        };
        let your_entity = EntityId {
            index: (index % 0x1_0000_0000) as u32,
            generation: (generation % 0x1_0000_0000) as u32,
        };
        let names = match read_name_table(&mut r, max_names) {
            Ok(v) => v,
            Err(e) => {
                return Err(e);
            },
        };
        let items = match read_item_list(&mut r, max_items) {
            Ok(v) => v,
            Err(e) => {
                return Err(e);
            },
        };
        Ok(SnapshotPacket { tick: tick as u32, is_header, keyframe, your_entity, names, items })
    }
}

impl Chunkable for SnapshotPacket {
    type Item = EntityItem;

    open spec fn item_list(&self) -> Seq<EntityItem> {
        self.items@
    }

    open spec fn is_rebuild(&self, items: Seq<EntityItem>, is_header: bool, out: Self) -> bool {
        out@ == (PacketView {
            is_header,
            names: if is_header {
                self@.names
            } else {
                Seq::empty()
            },
            items,
            ..self@
        })
    }

    open spec fn is_shed(&self, items: Seq<EntityItem>, out: Self) -> bool {
        out@ == (PacketView { is_header: true, names: Seq::empty(), items, ..self@ })
    }

    fn items(&self) -> (r: &[EntityItem]) {
        self.items.as_slice()
    }

    fn rebuild(&self, items: &[EntityItem], is_header: bool) -> (out: Self) {
        // The table rides the header chunk only.
        let names = if is_header {
            copy_names(&self.names)
        } else {
            Vec::new()
        };
        let out = SnapshotPacket {
            tick: self.tick,
            is_header,
            keyframe: self.keyframe,
            your_entity: self.your_entity,
            names,
            items: copy_items(items),
        };
        assert(!is_header ==> out@.names =~= Seq::<NameEntryView>::empty());
        out
    }

    fn rebuild_shed(&self, items: &[EntityItem]) -> (out: Self) {
        let out = SnapshotPacket {
            tick: self.tick,
            is_header: true,
            keyframe: self.keyframe,
            your_entity: self.your_entity,
            names: Vec::new(),
            items: copy_items(items),
        };
        assert(out@.names =~= Seq::<NameEntryView>::empty());
        out
    }
}

// ---------------------------------------------------------------------------
// Laws.
// ---------------------------------------------------------------------------

/// What survives the wire of an item: everything, but for the generation of
/// an update and the state of a departure, which are not sent.
pub open spec fn on_arrival(item: EntityItem) -> EntityItem {
    match item.kind {
        ItemKind::Entered => item,
        ItemKind::Updated => EntityItem {
            entity: EntityId { generation: 0, ..item.entity },
            ..item
        },
        ItemKind::Left => departure(item.entity),
    }
}

proof fn lemma_number(v: nat, n: nat, rest: Seq<bool>)
    requires
        v < vstd::arithmetic::power2::pow2(n),
    ensures
        parse_number(bitpack::to_bits(v, n) + rest, n) == Ok::<(nat, Seq<bool>), BitError>((v, rest)),
{
    bitpack::law_bits_round_trip(v, n, rest);
}

proof fn lemma_length(v: nat, rest: Seq<bool>)
    requires
        v <= u64::MAX,
    ensures
        parse_length(bitpack::varint_bits(v) + rest) == Ok::<(nat, Seq<bool>), BitError>((v, rest)),
{
    bitpack::law_varint_round_trip(v as u64, rest);
}

proof fn lemma_levels(l: Levels, n: nat, rest: Seq<bool>)
    requires
        l.x < vstd::arithmetic::power2::pow2(n),
        l.y < vstd::arithmetic::power2::pow2(n),
        l.z < vstd::arithmetic::power2::pow2(n),
    ensures
        parse_levels(levels_bits(l, n) + rest, n) == Ok::<(Levels, Seq<bool>), BitError>((l, rest)),
{
    let (x, y, z) = (bitpack::to_bits(l.x as nat, n), bitpack::to_bits(l.y as nat, n), bitpack::to_bits(l.z as nat, n));
    assert(levels_bits(l, n) + rest =~= x + (y + (z + rest)));
    lemma_number(l.x as nat, n, y + (z + rest));
    lemma_number(l.y as nat, n, z + rest);
    lemma_number(l.z as nat, n, rest);
}

proof fn lemma_leading(bytes: Seq<u8>, rest: Seq<bool>)
    ensures
        leading_bytes(bitpack::bits_of(bytes) + rest, bytes.len()) == bytes,
        (bitpack::bits_of(bytes) + rest).skip(8 * bytes.len() as int) == rest,
        (bitpack::bits_of(bytes) + rest).len() == 8 * bytes.len() + rest.len(),
{
    let all = bitpack::bits_of(bytes);
    let body = all + rest;
    assert forall|i: int| 0 <= i < bytes.len() implies leading_bytes(body, bytes.len())[i]
        == bytes[i] by {
        bitpack::lemma_byte_bits(bytes, i);
        assert(body.subrange(8 * i, 8 * i + 8) =~= all.subrange(8 * i, 8 * i + 8));
    }
    assert(leading_bytes(body, bytes.len()) =~= bytes);
    assert(body.skip(8 * bytes.len() as int) =~= rest);
}

proof fn lemma_name(e: NameEntryView, rest: Seq<bool>)
    requires
        encode_utf8(e.name).len() <= u64::MAX,
    ensures
        parse_name(name_bits(e) + rest) == Ok::<(NameEntryView, Seq<bool>), BitError>((e, rest)),
{
    let bytes = encode_utf8(e.name);
    let id = bitpack::varint_bits(e.id.0 as nat);
    let len = bitpack::varint_bits(bytes.len());
    let all = bitpack::bits_of(bytes);
    let body = all + rest;
    lemma_assoc(id, len + all, rest);
    lemma_assoc(len, all, rest);
    lemma_length(e.id.0 as nat, len + body);
    lemma_length(bytes.len(), body);
    lemma_leading(bytes, rest);
    encode_utf8_valid_utf8(e.name);
    encode_utf8_decode_utf8(e.name);
}

proof fn lemma_state(item: EntityItem, entity: EntityId, rest: Seq<bool>)
    requires
        item.fits(),
        item.kind != ItemKind::Left,
    ensures
        parse_state(state_bits(item) + rest, item.kind, entity) == Ok::<
            (EntityItem, Seq<bool>),
            BitError,
        >((EntityItem { entity, ..item }, rest)),
{
    vstd::arithmetic::power2::lemma2_to64();
    let component = bitpack::varint_bits(item.component.0 as nat);
    let pos = levels_bits(item.pos, 16);
    let rot = levels_bits(item.rot, 12);
    let vel = levels_bits(item.vel, 16);
    assert(state_bits(item) + rest =~= component + (pos + (rot + (vel + rest))));
    lemma_length(item.component.0 as nat, pos + (rot + (vel + rest)));
    lemma_levels(item.pos, 16, rot + (vel + rest));
    lemma_levels(item.rot, 12, vel + rest);
    lemma_levels(item.vel, 16, rest);
}

proof fn lemma_assoc(a: Seq<bool>, b: Seq<bool>, c: Seq<bool>)
    ensures
        (a + b) + c == a + (b + c),
{
    assert((a + b) + c =~= a + (b + c));
}

/// The body of an item whose state, if it has any, parses.
proof fn lemma_body_with(item: EntityItem, state: Seq<bool>, rest: Seq<bool>)
    requires
        if item.kind == ItemKind::Left {
            state == rest
        } else {
            parse_state(state, item.kind, on_arrival(item).entity) == Ok::<
                (EntityItem, Seq<bool>),
                BitError,
            >((on_arrival(item), rest))
        },
    ensures
        parse_body(
            generation_bits(item) + state,
            item.kind,
            item.entity.index as nat,
        ) == Ok::<(EntityItem, Seq<bool>), BitError>((on_arrival(item), rest)),
{
    if item.kind == ItemKind::Updated {
        assert(generation_bits(item) + state =~= state);
    } else {
        lemma_length(item.entity.generation as nat, state);
    }
}

proof fn lemma_body(item: EntityItem, rest: Seq<bool>)
    requires
        item.fits(),
    ensures
        parse_body(
            generation_bits(item) + (state_bits(item) + rest),
            item.kind,
            item.entity.index as nat,
        ) == Ok::<(EntityItem, Seq<bool>), BitError>((on_arrival(item), rest)),
{
    if item.kind == ItemKind::Left {
        assert(state_bits(item) + rest =~= rest);
    } else {
        lemma_state(item, on_arrival(item).entity, rest);
    }
    lemma_body_with(item, state_bits(item) + rest, rest);
}

proof fn lemma_item(item: EntityItem, rest: Seq<bool>)
    requires
        item.fits(),
    ensures
        parse_item(item_bits(item) + rest) == Ok::<(EntityItem, Seq<bool>), BitError>(
            (on_arrival(item), rest),
        ),
{
    vstd::arithmetic::power2::lemma2_to64();
    let kind = bitpack::to_bits(kind_code(item.kind), 2);
    let index = bitpack::varint_bits(item.entity.index as nat);
    let (generation, state) = (generation_bits(item), state_bits(item));
    let tail = generation + (state + rest);
    lemma_assoc(kind, index + (generation + state), rest);
    lemma_assoc(index, generation + state, rest);
    lemma_assoc(generation, state, rest);
    lemma_number(kind_code(item.kind), 2, index + tail);
    lemma_length(item.entity.index as nat, tail);
    lemma_body(item, rest);
}

proof fn lemma_core(p: PacketView, rest: Seq<bool>)
    ensures
        parse_core(core_bits(p) + rest) == Ok::<(PacketView, Seq<bool>), BitError>(
            (PacketView { names: Seq::empty(), items: Seq::empty(), ..p }, rest),
        ),
{
    vstd::arithmetic::power2::lemma2_to64();
    let tick = bitpack::to_bits(p.tick as nat, 32);
    let index = bitpack::varint_bits(p.your_entity.index as nat);
    let generation = bitpack::varint_bits(p.your_entity.generation as nat);
    let (head, key) = (seq![p.is_header], seq![p.keyframe]);
    let flags = head + (key + (index + (generation + rest)));
    lemma_assoc(tick, head + (key + (index + generation)), rest);
    lemma_assoc(head, key + (index + generation), rest);
    lemma_assoc(key, index + generation, rest);
    lemma_assoc(index, generation, rest);
    lemma_number(p.tick as nat, 32, flags);
    assert(flags.skip(2) =~= index + (generation + rest));
    lemma_length(p.your_entity.index as nat, generation + rest);
    lemma_length(p.your_entity.generation as nat, rest);
}

/// The names, the first one in front.
proof fn lemma_names_bits_front(names: Seq<NameEntryView>)
    requires
        names.len() > 0,
    ensures
        names_bits(names) == name_bits(names[0]) + names_bits(names.drop_first()),
    decreases names.len(),
{
    if names.len() == 1 {
        assert(names.drop_last() =~= Seq::<NameEntryView>::empty());
        assert(names.drop_first() =~= Seq::<NameEntryView>::empty());
        assert(names_bits(names.drop_last()) =~= Seq::<bool>::empty());
        assert(names_bits(names) =~= name_bits(names[0]) + names_bits(names.drop_first()));
    } else {
        lemma_names_bits_front(names.drop_last());
        assert(names.drop_first().drop_last() =~= names.drop_last().drop_first());
        assert(names.drop_first().last() == names.last());
        assert(names_bits(names) =~= name_bits(names[0]) + names_bits(names.drop_first()));
    }
}

proof fn lemma_items_bits_front(items: Seq<EntityItem>)
    requires
        items.len() > 0,
    ensures
        items_bits(items) == item_bits(items[0]) + items_bits(items.drop_first()),
    decreases items.len(),
{
    if items.len() == 1 {
        assert(items.drop_last() =~= Seq::<EntityItem>::empty());
        assert(items.drop_first() =~= Seq::<EntityItem>::empty());
        assert(items_bits(items.drop_last()) =~= Seq::<bool>::empty());
        assert(items_bits(items) =~= item_bits(items[0]) + items_bits(items.drop_first()));
    } else {
        lemma_items_bits_front(items.drop_last());
        assert(items.drop_first().drop_last() =~= items.drop_last().drop_first());
        assert(items.drop_first().last() == items.last());
        assert(items_bits(items) =~= item_bits(items[0]) + items_bits(items.drop_first()));
    }
}

proof fn lemma_names(names: Seq<NameEntryView>, rest: Seq<bool>)
    requires
        forall|i: int|
            0 <= i < names.len() ==> encode_utf8((#[trigger] names[i]).name).len() <= u64::MAX,
    ensures
        parse_names(names_bits(names) + rest, names.len()) == Ok::<
            (Seq<NameEntryView>, Seq<bool>),
            BitError,
        >((names, rest)),
    decreases names.len(),
{
    if names.len() == 0 {
        assert(names_bits(names) + rest =~= rest);
        assert(names =~= Seq::<NameEntryView>::empty());
    } else {
        let tail = names.drop_first();
        lemma_names_bits_front(names);
        assert(names_bits(names) + rest =~= name_bits(names[0]) + (names_bits(tail) + rest));
        assert(encode_utf8(names[0].name).len() <= u64::MAX);
        lemma_name(names[0], names_bits(tail) + rest);
        assert forall|i: int| 0 <= i < tail.len() implies encode_utf8(
            (#[trigger] tail[i]).name,
        ).len() <= u64::MAX by {
            assert(tail[i] == names[i + 1]);
        }
        lemma_names(tail, rest);
        assert(seq![names[0]] + tail =~= names);
    }
}

proof fn lemma_items_step(
    s: Seq<bool>,
    n: nat,
    first: EntityItem,
    s1: Seq<bool>,
    rest: Seq<EntityItem>,
    s2: Seq<bool>,
)
    requires
        n > 0,
        parse_item(s) == Ok::<(EntityItem, Seq<bool>), BitError>((first, s1)),
        parse_items(s1, (n - 1) as nat) == Ok::<(Seq<EntityItem>, Seq<bool>), BitError>((rest, s2)),
    ensures
        parse_items(s, n) == Ok::<(Seq<EntityItem>, Seq<bool>), BitError>((seq![first] + rest, s2)),
{
}

proof fn lemma_items(items: Seq<EntityItem>, rest: Seq<bool>)
    requires
        forall|i: int| 0 <= i < items.len() ==> (#[trigger] items[i]).fits(),
    ensures
        parse_items(items_bits(items) + rest, items.len()) == Ok::<
            (Seq<EntityItem>, Seq<bool>),
            BitError,
        >((items.map_values(|i: EntityItem| on_arrival(i)), rest)),
    decreases items.len(),
{
    let arrive = |i: EntityItem| on_arrival(i);
    if items.len() == 0 {
        assert(items_bits(items) + rest =~= rest);
        assert(items.map_values(arrive) =~= Seq::<EntityItem>::empty());
    } else {
        let tail = items.drop_first();
        lemma_items_bits_front(items);
        lemma_assoc(item_bits(items[0]), items_bits(tail), rest);
        assert(items[0].fits());
        lemma_item(items[0], items_bits(tail) + rest);
        assert forall|i: int| 0 <= i < tail.len() implies (#[trigger] tail[i]).fits() by {
            assert(tail[i] == items[i + 1]);
        }
        lemma_items(tail, rest);
        assert(seq![on_arrival(items[0])] + tail.map_values(arrive) =~= items.map_values(
            arrive,
        )) by {
            assert forall|i: int| 0 <= i < items.len() implies (seq![on_arrival(items[0])]
                + tail.map_values(arrive))[i] == items.map_values(arrive)[i] by {
                if i > 0 {
                    assert(tail[i - 1] == items[i]);
                }
            }
        }
        lemma_items_step(
            items_bits(items) + rest,
            items.len(),
            on_arrival(items[0]),
            items_bits(tail) + rest,
            tail.map_values(arrive),
            rest,
        );
    }
}

/// A packet that is encoded and decoded again arrives as it was sent, but
/// for the generation of updates and the state of departures, which do not
/// travel. Whatever padding follows is ignored.
pub proof fn law_packet_round_trip(
    p: PacketView,
    padding: Seq<bool>,
    max_names: nat,
    max_items: nat,
)
    requires
        p.names.len() <= max_names,
        p.items.len() <= max_items,
        p.names.len() <= u64::MAX,
        p.items.len() <= u64::MAX,
        forall|i: int|
            0 <= i < p.names.len() ==> encode_utf8((#[trigger] p.names[i]).name).len() <= u64::MAX,
        forall|i: int| 0 <= i < p.items.len() ==> (#[trigger] p.items[i]).fits(),
    ensures
        parse_packet(packet_bits(p) + padding, max_names, max_items) == Ok::<PacketView, BitError>(
            PacketView { items: p.items.map_values(|i: EntityItem| on_arrival(i)), ..p },
        ),
{
    let count = bitpack::varint_bits(p.items.len());
    let items = count + (items_bits(p.items) + padding);
    let table = bitpack::varint_bits(p.names.len());
    let names = table + (names_bits(p.names) + items);
    let (core, n, i) = (core_bits(p), names_bits(p.names), items_bits(p.items));
    lemma_assoc(core, table + (n + (count + i)), padding);
    lemma_assoc(table, n + (count + i), padding);
    lemma_assoc(n, count + i, padding);
    lemma_assoc(count, i, padding);
    lemma_core(p, names);
    lemma_length(p.names.len(), n + items);
    lemma_names(p.names, items);
    lemma_length(p.items.len(), i + padding);
    lemma_items(p.items, padding);
}

/// What a varint of a `u32`, and of a `u16`, costs at most.
proof fn lemma_varint_cost(v: u32)
    ensures
        8 <= bitpack::varint_bits(v as nat).len() <= 40,
        v <= u16::MAX ==> bitpack::varint_bits(v as nat).len() <= 24,
{
    vstd::arithmetic::power2::lemma2_to64();
    vstd::arithmetic::power2::lemma2_to64_rest();
    bitpack::law_small_numbers_are_cheap(v as nat, 5);
    if v <= u16::MAX {
        bitpack::law_small_numbers_are_cheap(v as nat, 3);
    }
}

proof fn lemma_item_cost(item: EntityItem)
    ensures
        item_bits(item).len() <= 238,
        item.kind == ItemKind::Left ==> item_bits(item).len() <= 42 + bitpack::varint_bits(
            item.entity.index as nat,
        ).len(),
        item.kind != ItemKind::Left ==> item_bits(item).len() >= 142 + bitpack::varint_bits(
            item.entity.index as nat,
        ).len(),
{
    lemma_varint_cost(item.entity.index);
    lemma_varint_cost(item.entity.generation);
    lemma_varint_cost(item.component.0 as u32);
    bitpack::law_bits_round_trip(kind_code(item.kind), 2, Seq::empty());
    lemma_levels_cost(item.pos, 16);
    lemma_levels_cost(item.rot, 12);
    lemma_levels_cost(item.vel, 16);
}

proof fn lemma_levels_cost(l: Levels, n: nat)
    ensures
        levels_bits(l, n).len() == 3 * n,
{
    bitpack::law_bits_round_trip(l.x as nat, n, Seq::empty());
    bitpack::law_bits_round_trip(l.y as nat, n, Seq::empty());
    bitpack::law_bits_round_trip(l.z as nat, n, Seq::empty());
}

/// A departure carries no state, so it costs less than anything that does,
/// for the same entity index.
pub proof fn law_departures_are_cheaper(left: EntityItem, other: EntityItem)
    requires
        left.kind == ItemKind::Left,
        other.kind != ItemKind::Left,
        left.entity.index == other.entity.index,
    ensures
        item_bits(left).len() < item_bits(other).len(),
{
    lemma_item_cost(left);
    lemma_item_cost(other);
}

/// The forward-progress invariant: the scalar core without names, plus one
/// item, fits any datagram; and one item alone is under 32 bytes. So a chunk
/// of one item that is refused is refused for its header.
pub proof fn law_core_and_one_item_fit_any_datagram(p: PacketView)
    requires
        p.names.len() == 0,
        p.items.len() <= 1,
    ensures
        packet_bits(p).len() <= 8 * crate::net::chunk::MIN_DATAGRAM_BUDGET,
        p.items.len() == 1 ==> item_bits(p.items[0]).len() < 8 * 32,
{
    vstd::arithmetic::power2::lemma2_to64();
    lemma_varint_cost(p.your_entity.index);
    lemma_varint_cost(p.your_entity.generation);
    lemma_varint_cost(0);
    lemma_varint_cost(1);
    bitpack::law_bits_round_trip(p.tick as nat, 32, Seq::empty());
    assert(names_bits(p.names) =~= Seq::<bool>::empty());
    if p.items.len() == 1 {
        lemma_item_cost(p.items[0]);
        lemma_items_bits_front(p.items);
        assert(p.items.drop_first() =~= Seq::<EntityItem>::empty());
        assert(items_bits(p.items.drop_first()) =~= Seq::<bool>::empty());
    } else {
        assert(items_bits(p.items) =~= Seq::<bool>::empty());
    }
}

/// A component is in the name table exactly if it reaches clients.
pub proof fn law_the_name_table_lists_what_is_sent<C>(es: Seq<Entry<C>>, n: NameEntryView)
    ensures
        wire_names(es).contains(n) <==> exists|i: int|
            0 <= i < es.len() && (#[trigger] es[i]).replicate.is_sent() && n == (NameEntryView {
                name: es[i].name@,
                id: es[i].id,
            }),
    decreases es.len(),
{
    if es.len() > 0 {
        let front = es.drop_last();
        law_the_name_table_lists_what_is_sent(front, n);
        let last = NameEntryView { name: es.last().name@, id: es.last().id };
        if wire_names(es).contains(n) {
            if wire_names(front).contains(n) {
                let i = choose|i: int|
                    0 <= i < front.len() && (#[trigger] front[i]).replicate.is_sent() && n == (
                    NameEntryView { name: front[i].name@, id: front[i].id });
                assert(es[i] == front[i]);
            } else {
                assert(n == last && es.last().replicate.is_sent());
                assert(es[es.len() - 1] == es.last());
            }
        }
        if exists|i: int|
            0 <= i < es.len() && (#[trigger] es[i]).replicate.is_sent() && n == (NameEntryView {
                name: es[i].name@,
                id: es[i].id,
            }) {
            let i = choose|i: int|
                0 <= i < es.len() && (#[trigger] es[i]).replicate.is_sent() && n == (
                NameEntryView { name: es[i].name@, id: es[i].id });
            if i < front.len() {
                assert(front[i] == es[i]);
                let k = wire_names(front).index_of(n);
                assert(wire_names(front)[k] == n);
                assert(wire_names(es)[k] == n);
            } else {
                let k = wire_names(front).len() as int;
                assert(wire_names(es)[k] == n);
            }
        }
    }
}

/// The name table rides the header chunk only: a continuation says that it
/// is one and carries no names, and a shed header carries none either.
pub proof fn law_name_table_rides_the_header_only(
    p: SnapshotPacket,
    items: Seq<EntityItem>,
    out: SnapshotPacket,
)
    ensures
        p.is_rebuild(items, true, out) ==> out@.is_header && out@.names == p@.names && out@.items
            == items,
        p.is_rebuild(items, false, out) ==> !out@.is_header && out@.names.len() == 0 && out@.items
            == items,
        p.is_shed(items, out) ==> out@.is_header && out@.names.len() == 0 && out@.items == items,
{
}

/// The scalar core rides every chunk, header, continuation and shed alike: the
/// tick, whether it is a keyframe and whose view it is are those of the packet.
pub proof fn law_the_scalar_core_rides_every_chunk(
    p: &SnapshotPacket,
    items: &[EntityItem],
    is_header: bool,
    rebuilt: SnapshotPacket,
    shed: SnapshotPacket,
)
    requires
        call_ensures(<SnapshotPacket as Chunkable>::rebuild, (p, items, is_header), rebuilt),
        call_ensures(<SnapshotPacket as Chunkable>::rebuild_shed, (p, items), shed),
    ensures
        rebuilt.tick == p.tick && shed.tick == p.tick,
        rebuilt.keyframe == p.keyframe && shed.keyframe == p.keyframe,
        rebuilt.your_entity == p.your_entity && shed.your_entity == p.your_entity,
        rebuilt.is_header == is_header && shed.is_header,
        rebuilt.items@ == items@ && shed.items@ == items@,
        rebuilt@.names == if is_header {
            p@.names
        } else {
            Seq::empty()
        },
        shed@.names.len() == 0,
{
    assert(p.is_rebuild(items@, is_header, rebuilt));
    assert(p.is_shed(items@, shed));
}

/// The same of whatever a packet may be rebuilt or shed to.
pub proof fn law_no_chunk_alters_the_scalar_core(
    p: SnapshotPacket,
    items: Seq<EntityItem>,
    is_header: bool,
    out: SnapshotPacket,
)
    requires
        p.is_rebuild(items, is_header, out) || p.is_shed(items, out),
    ensures
        out@.tick == p@.tick,
        out@.keyframe == p@.keyframe,
        out@.your_entity == p@.your_entity,
        out@.items == items,
{
}

/// What travels of an item: always its kind and its index; its generation
/// unless it is an update, and its whole state unless it is a departure. What
/// does not travel arrives as zero.
pub proof fn law_what_travels_of_an_item(item: EntityItem)
    ensures
        ({
            let got = on_arrival(item);
            &&& got.kind == item.kind && got.entity.index == item.entity.index
            &&& got.entity.generation == if item.kind == ItemKind::Updated {
                0
            } else {
                item.entity.generation
            }
            &&& item.kind != ItemKind::Left ==> got.pos == item.pos && got.rot == item.rot
                && got.vel == item.vel && got.component == item.component
            &&& item.kind == ItemKind::Left ==> {
                &&& got.pos.x == 0 && got.pos.y == 0 && got.pos.z == 0
                &&& got.rot.x == 0 && got.rot.y == 0 && got.rot.z == 0
                &&& got.vel.x == 0 && got.vel.y == 0 && got.vel.z == 0
                &&& got.component == NameId(0)
            }
        }),
{
}

/// An item starts with its kind in two bits, then its index: zero for one that
/// entered, one for an update, two for a departure.
pub proof fn law_an_item_starts_with_its_kind(item: EntityItem)
    ensures
        ({
            let code = bitpack::from_bits(item_bits(item).take(2));
            &&& code == 0 <==> item.kind == ItemKind::Entered
            &&& code == 1 <==> item.kind == ItemKind::Updated
            &&& code == 2 <==> item.kind == ItemKind::Left
            &&& code <= 2
            &&& item_bits(item).skip(2).take(
                bitpack::varint_bits(item.entity.index as nat).len() as int,
            ) == bitpack::varint_bits(item.entity.index as nat)
        }),
{
    vstd::arithmetic::power2::lemma2_to64();
    let index = bitpack::varint_bits(item.entity.index as nat);
    let rest = generation_bits(item) + state_bits(item);
    bitpack::law_bits_round_trip(kind_code(item.kind), 2, index + rest);
    assert((index + rest).take(index.len() as int) =~= index);
}

/// A packet starts with its tick in 32 bits, most significant first, then
/// whether it is a header and whether it is a keyframe, a bit each.
pub proof fn law_a_packet_starts_with_its_tick(p: PacketView)
    ensures
        packet_bits(p).len() >= 34,
        bitpack::from_bits(packet_bits(p).take(32)) == p.tick,
        packet_bits(p)[32] == p.is_header,
        packet_bits(p)[33] == p.keyframe,
{
    vstd::arithmetic::power2::lemma2_to64();
    let all = packet_bits(p);
    let tick = bitpack::to_bits(p.tick as nat, 32);
    bitpack::law_bits_round_trip(p.tick as nat, 32, Seq::empty());
    assert(all.take(32) =~= tick);
}

/// More names or items than the receiver allows are refused, whatever they
/// are: nothing is read of a list that announces too many.
pub proof fn law_too_many_are_refused(
    p: PacketView,
    padding: Seq<bool>,
    max_names: nat,
    max_items: nat,
)
    requires
        p.names.len() <= u64::MAX,
        p.items.len() <= u64::MAX,
        p.names.len() > max_names || p.items.len() > max_items,
        forall|i: int|
            0 <= i < p.names.len() ==> encode_utf8((#[trigger] p.names[i]).name).len() <= u64::MAX,
    ensures
        parse_packet(packet_bits(p) + padding, max_names, max_items) == Err::<PacketView, BitError>(
            BitError::OutOfRange,
        ),
{
    let count = bitpack::varint_bits(p.items.len());
    let items = count + (items_bits(p.items) + padding);
    let table = bitpack::varint_bits(p.names.len());
    let names = table + (names_bits(p.names) + items);
    let (core, n, i) = (core_bits(p), names_bits(p.names), items_bits(p.items));
    lemma_assoc(core, table + (n + (count + i)), padding);
    lemma_assoc(table, n + (count + i), padding);
    lemma_assoc(n, count + i, padding);
    lemma_assoc(count, i, padding);
    lemma_core(p, names);
    lemma_length(p.names.len(), names_bits(p.names) + items);
    lemma_length(p.items.len(), items_bits(p.items) + padding);
    if p.names.len() <= max_names {
        lemma_names(p.names, items);
    }
}

/// The name table keeps the order of registration and lists a component once
/// for each time it is registered to be sent.
pub proof fn law_the_name_table_keeps_its_order<C>(es: Seq<Entry<C>>, e: Entry<C>)
    ensures
        wire_names(Seq::<Entry<C>>::empty()).len() == 0,
        e.replicate is ServerOnly ==> wire_names(es.push(e)) == wire_names(es),
        !(e.replicate is ServerOnly) ==> wire_names(es.push(e)) == wire_names(es).push(
            NameEntryView { name: e.name@, id: e.id },
        ),
{
    assert(es.push(e).drop_last() =~= es);
}

/// A packet that is encoded to bytes and decoded from them again is what was
/// sent: same tick, flags, recipient and names, and every item, in order, with
/// what travels of it.
pub proof fn law_what_is_encoded_is_decoded(
    p: &SnapshotPacket,
    bytes: Vec<u8>,
    data: &[u8],
    max_names: usize,
    max_items: usize,
    res: Result<SnapshotPacket, BitError>,
)
    requires
        p.names@.len() <= max_names,
        p.items@.len() <= max_items,
        forall|i: int|
            0 <= i < p.names@.len() ==> encode_utf8((#[trigger] p.names@[i]).name@).len()
                <= u64::MAX,
        forall|i: int| 0 <= i < p.items@.len() ==> (#[trigger] p.items@[i]).fits(),
        call_ensures(SnapshotPacket::encode, (p,), bytes),
        data@ == bytes@,
        call_ensures(SnapshotPacket::decode, (data, max_names, max_items), res),
    ensures
        res is Ok,
        res->Ok_0.tick == p.tick,
        res->Ok_0.is_header == p.is_header,
        res->Ok_0.keyframe == p.keyframe,
        res->Ok_0.your_entity == p.your_entity,
        res->Ok_0@.names == p@.names,
        res->Ok_0.items@.len() == p.items@.len(),
        forall|i: int|
            0 <= i < p.items@.len() ==> {
                let (sent, got) = (p.items@[i], #[trigger] res->Ok_0.items@[i]);
                &&& got.kind == sent.kind && got.entity.index == sent.entity.index
                &&& sent.kind != ItemKind::Updated ==> got.entity == sent.entity
                &&& sent.kind != ItemKind::Left ==> got.pos == sent.pos && got.rot == sent.rot
                    && got.vel == sent.vel && got.component == sent.component
            },
{
    let v = p@;
    assert forall|i: int| 0 <= i < v.names.len() implies encode_utf8(
        (#[trigger] v.names[i]).name,
    ).len() <= u64::MAX by {
        assert(v.names[i] == p.names@[i]@);
    }
    law_packet_round_trip(
        v,
        bitpack::zeros((8 * bytes@.len() - packet_bits(v).len()) as nat),
        max_names as nat,
        max_items as nat,
    );
    let got = res->Ok_0@;
    assert forall|i: int| 0 <= i < p.items@.len() implies {
        let (sent, got) = (p.items@[i], #[trigger] res->Ok_0.items@[i]);
        &&& got.kind == sent.kind && got.entity.index == sent.entity.index
        &&& sent.kind != ItemKind::Updated ==> got.entity == sent.entity
        &&& sent.kind != ItemKind::Left ==> got.pos == sent.pos && got.rot == sent.rot && got.vel
            == sent.vel && got.component == sent.component
    } by {
        assert(got.items[i] == on_arrival(v.items[i]));
    }
}

/// An item without state is a departure of its entity, with nothing in it; the
/// index is what a client keys an item by, and only an update's generation is
/// not to be trusted.
pub proof fn law_items_are_keyed_by_index(
    item: &EntityItem,
    entity: EntityId,
    left: EntityItem,
    key: u32,
    authoritative: bool,
)
    requires
        call_ensures(EntityItem::left, (entity,), left),
        call_ensures(EntityItem::key, (item,), key),
        call_ensures(EntityItem::generation_is_authoritative, (item,), authoritative),
    ensures
        left.kind == ItemKind::Left && left.entity == entity,
        left.pos.x == 0 && left.vel.x == 0 && left.rot.x == 0 && left.component == NameId(0),
        key == item.entity.index,
        authoritative <==> item.kind == ItemKind::Entered || item.kind == ItemKind::Left,
{
}

/// How an item is laid out. Behind its kind and its index comes its generation,
/// unless it is an update, then, unless it is a departure, the number of its
/// component and its state: three coordinates in 16 bits each, three components
/// of the rotation in 12, and three of the velocity in 16.
#[verifier::rlimit(30)]
pub proof fn law_an_item_is_laid_out(item: EntityItem)
    ensures
        ({
            let index = bitpack::varint_bits(item.entity.index as nat);
            let generation = bitpack::varint_bits(item.entity.generation as nat);
            let component = bitpack::varint_bits(item.component.0 as nat);
            let all = item_bits(item).skip(2);
            let n = all.len() - 132;
            let s = all.skip(n);
            &&& item.kind is Left ==> all == index + generation
            &&& item.kind is Updated ==> all.take(n) == index + component
            &&& item.kind is Entered ==> all.take(n) == index + generation + component
            &&& !(item.kind is Left) ==> {
                &&& bitpack::from_bits(s.subrange(0, 16)) == item.pos.x
                &&& bitpack::from_bits(s.subrange(16, 32)) == item.pos.y
                &&& bitpack::from_bits(s.subrange(32, 48)) == item.pos.z
                &&& bitpack::from_bits(s.subrange(48, 60)) == item.rot.x as nat % 4096
                &&& bitpack::from_bits(s.subrange(60, 72)) == item.rot.y as nat % 4096
                &&& bitpack::from_bits(s.subrange(72, 84)) == item.rot.z as nat % 4096
                &&& bitpack::from_bits(s.subrange(84, 100)) == item.vel.x
                &&& bitpack::from_bits(s.subrange(100, 116)) == item.vel.y
                &&& bitpack::from_bits(s.subrange(116, 132)) == item.vel.z
            }
        }),
{
    vstd::arithmetic::power2::lemma2_to64();
    let index = bitpack::varint_bits(item.entity.index as nat);
    let generation = bitpack::varint_bits(item.entity.generation as nat);
    let component = bitpack::varint_bits(item.component.0 as nat);
    let none = Seq::<bool>::empty();
    bitpack::law_bits_round_trip(kind_code(item.kind), 2, none);
    let all = item_bits(item).skip(2);
    assert(all =~= index + (generation_bits(item) + state_bits(item)));
    if item.kind == ItemKind::Left {
        assert(all =~= index + generation);
    } else {
        let state = levels_bits(item.pos, 16) + (levels_bits(item.rot, 12) + levels_bits(
            item.vel,
            16,
        ));
        let front = generation_bits(item) + component;
        lemma_state_laid_out(item.pos, item.rot, item.vel);
        assert(all =~= (index + front) + state);
        let n = all.len() - 132;
        assert(all.skip(n) =~= state);
        assert(all.take(n) =~= index + front);
        if item.kind == ItemKind::Updated {
            assert(index + front =~= index + component);
        } else {
            assert(index + front =~= index + generation + component);
        }
    }
}

proof fn lemma_state_laid_out(pos: Levels, rot: Levels, vel: Levels)
    ensures
        ({
            let s = levels_bits(pos, 16) + (levels_bits(rot, 12) + levels_bits(vel, 16));
            &&& s.len() == 132
            &&& bitpack::from_bits(s.subrange(0, 16)) == pos.x
            &&& bitpack::from_bits(s.subrange(16, 32)) == pos.y
            &&& bitpack::from_bits(s.subrange(32, 48)) == pos.z
            &&& bitpack::from_bits(s.subrange(48, 60)) == rot.x as nat % 4096
            &&& bitpack::from_bits(s.subrange(60, 72)) == rot.y as nat % 4096
            &&& bitpack::from_bits(s.subrange(72, 84)) == rot.z as nat % 4096
            &&& bitpack::from_bits(s.subrange(84, 100)) == vel.x
            &&& bitpack::from_bits(s.subrange(100, 116)) == vel.y
            &&& bitpack::from_bits(s.subrange(116, 132)) == vel.z
        }),
{
    vstd::arithmetic::power2::lemma2_to64();
    lemma_levels_laid_out(pos, 16);
    lemma_levels_laid_out(rot, 12);
    lemma_levels_laid_out(vel, 16);
    let (p, r, v) = (levels_bits(pos, 16), levels_bits(rot, 12), levels_bits(vel, 16));
    let s = p + (r + v);
    assert(s.subrange(0, 16) =~= p.subrange(0, 16));
    assert(s.subrange(16, 32) =~= p.subrange(16, 32));
    assert(s.subrange(32, 48) =~= p.subrange(32, 48));
    assert(s.subrange(48, 60) =~= r.subrange(0, 12));
    assert(s.subrange(60, 72) =~= r.subrange(12, 24));
    assert(s.subrange(72, 84) =~= r.subrange(24, 36));
    assert(s.subrange(84, 100) =~= v.subrange(0, 16));
    assert(s.subrange(100, 116) =~= v.subrange(16, 32));
    assert(s.subrange(116, 132) =~= v.subrange(32, 48));
}

proof fn lemma_levels_laid_out(l: Levels, n: nat)
    ensures
        levels_bits(l, n).len() == 3 * n,
        bitpack::from_bits(levels_bits(l, n).subrange(0, n as int)) == l.x as nat
            % vstd::arithmetic::power2::pow2(n),
        bitpack::from_bits(levels_bits(l, n).subrange(n as int, 2 * n as int)) == l.y as nat
            % vstd::arithmetic::power2::pow2(n),
        bitpack::from_bits(levels_bits(l, n).subrange(2 * n as int, 3 * n as int)) == l.z as nat
            % vstd::arithmetic::power2::pow2(n),
{
    let none = Seq::<bool>::empty();
    bitpack::law_bits_round_trip(l.x as nat, n, none);
    bitpack::law_bits_round_trip(l.y as nat, n, none);
    bitpack::law_bits_round_trip(l.z as nat, n, none);
    let s = levels_bits(l, n);
    assert(s.subrange(0, n as int) =~= bitpack::to_bits(l.x as nat, n));
    assert(s.subrange(n as int, 2 * n as int) =~= bitpack::to_bits(l.y as nat, n));
    assert(s.subrange(2 * n as int, 3 * n as int) =~= bitpack::to_bits(l.z as nat, n));
}

/// How a packet is laid out: behind its tick and its flags come whom it is for,
/// the number of names and the names, then the number of items and the items.
/// Each further name and each further item goes behind the others.
pub proof fn law_a_packet_is_laid_out(p: PacketView, name: NameEntryView, item: EntityItem)
    ensures
        packet_bits(p).skip(34) == bitpack::varint_bits(p.your_entity.index as nat)
            + bitpack::varint_bits(p.your_entity.generation as nat) + bitpack::varint_bits(
            p.names.len(),
        ) + names_bits(p.names) + bitpack::varint_bits(p.items.len()) + items_bits(p.items),
        names_bits(Seq::empty()).len() == 0 && items_bits(Seq::empty()).len() == 0,
        names_bits(p.names.push(name)) == names_bits(p.names) + bitpack::varint_bits(
            name.id.0 as nat,
        ) + bitpack::varint_bits(encode_utf8(name.name).len()) + bitpack::bits_of(
            encode_utf8(name.name),
        ),
        items_bits(p.items.push(item)) == items_bits(p.items) + item_bits(item),
{
    bitpack::law_bits_round_trip(p.tick as nat, 32, Seq::empty());
    assert(packet_bits(p).skip(34) =~= bitpack::varint_bits(p.your_entity.index as nat)
        + bitpack::varint_bits(p.your_entity.generation as nat) + bitpack::varint_bits(
        p.names.len(),
    ) + names_bits(p.names) + bitpack::varint_bits(p.items.len()) + items_bits(p.items));
    assert(p.names.push(name).drop_last() =~= p.names);
    assert(p.items.push(item).drop_last() =~= p.items);
    assert(names_bits(p.names.push(name)) =~= names_bits(p.names) + bitpack::varint_bits(
        name.id.0 as nat,
    ) + bitpack::varint_bits(encode_utf8(name.name).len()) + bitpack::bits_of(
        encode_utf8(name.name),
    ));
}

/// Encoding into a writer leaves just the packet in it, whatever was in it
/// before.
pub proof fn law_encoding_starts_afresh(p: &SnapshotPacket)
    ensures
        forall|w: &mut BitWriter| #[trigger]
            call_ensures(SnapshotPacket::encode_into, (p, w), ()) ==> (*final(w))@ == packet_bits(
                p@,
            ),
{
}

/// A kind that is none of the three is refused as out of range.
pub proof fn law_a_fourth_kind_is_refused(s: Seq<bool>)
    requires
        s.len() >= 2,
        s[0] && s[1],
    ensures
        parse_item(s) == Err::<(EntityItem, Seq<bool>), BitError>(BitError::OutOfRange),
{
    let two = s.take(2);
    reveal_with_fuel(bitpack::from_bits, 3);
    assert(two.drop_last().drop_last() =~= Seq::<bool>::empty());
    assert(bitpack::from_bits(two) == 3);
}

/// The table of a registry names each component that clients are told about,
/// with its number, and no other.
pub proof fn law_the_table_names_what_is_sent<C>(
    r: &Registry<C>,
    table: Vec<NameEntry>,
    i: int,
    j: int,
)
    requires
        call_ensures(SnapshotPacket::name_table::<C>, (r,), table),
    ensures
        0 <= i < r@.entries.len() && !(r@.entries[i].replicate is ServerOnly) ==> exists|k: int|
            0 <= k < table@.len() && (#[trigger] table@[k]).name@ == r@.entries[i].name@
                && table@[k].id == r@.entries[i].id,
        0 <= j < table@.len() ==> exists|k: int|
            0 <= k < r@.entries.len() && (#[trigger] r@.entries[k]).name@ == table@[j].name@
                && r@.entries[k].id == table@[j].id && !(r@.entries[k].replicate is ServerOnly),
{
    let es = r@.entries;
    let views = table@.map_values(|n: NameEntry| n@);
    if 0 <= i < es.len() && !(es[i].replicate is ServerOnly) {
        let n = NameEntryView { name: es[i].name@, id: es[i].id };
        law_the_name_table_lists_what_is_sent(es, n);
        let k = choose|k: int| 0 <= k < views.len() && views[k] == n;
        assert(views[k] == table@[k]@);
    }
    if 0 <= j < table@.len() {
        let n = views[j];
        assert(n == table@[j]@);
        assert(views.contains(n));
        law_the_name_table_lists_what_is_sent(es, n);
    }
}

proof fn lemma_cut(a: Seq<bool>, b: Seq<bool>, m: int)
    requires
        0 <= m <= a.len() + b.len(),
    ensures
        m <= a.len() ==> (a + b).take(m) == a.take(m),
        m >= a.len() ==> (a + b).take(m) == a + b.take(m - a.len()),
{
    if m <= a.len() {
        assert((a + b).take(m) =~= a.take(m));
    }
    if m >= a.len() {
        assert((a + b).take(m) =~= a + b.take(m - a.len()));
    }
}

proof fn lemma_cut_length(v: nat, m: int)
    requires
        v <= u64::MAX,
        0 <= m < bitpack::varint_bits(v).len(),
    ensures
        parse_length(bitpack::varint_bits(v).take(m)) == Err::<(nat, Seq<bool>), BitError>(
            BitError::Truncated,
        ),
{
    bitpack::law_broken_varints_are_told_apart(Seq::empty(), v as u64, m);
}

proof fn lemma_levels_by_length(s: Seq<bool>, n: nat)
    ensures
        s.len() < 3 * n ==> parse_levels(s, n) == Err::<(Levels, Seq<bool>), BitError>(
            BitError::Truncated,
        ),
        s.len() >= 3 * n ==> parse_levels(s, n) is Ok && parse_levels(s, n)->Ok_0.1.len()
            == s.len() - 3 * n,
{
}

proof fn lemma_cut_state(item: EntityItem, entity: EntityId, m: int)
    requires
        item.kind != ItemKind::Left,
        0 <= m < state_bits(item).len(),
    ensures
        parse_state(state_bits(item).take(m), item.kind, entity) == Err::<
            (EntityItem, Seq<bool>),
            BitError,
        >(BitError::Truncated),
{
    let component = bitpack::varint_bits(item.component.0 as nat);
    let levels = levels_bits(item.pos, 16) + (levels_bits(item.rot, 12) + levels_bits(
        item.vel,
        16,
    ));
    lemma_state_laid_out(item.pos, item.rot, item.vel);
    lemma_cut(component, levels, m);
    if m < component.len() {
        lemma_cut_length(item.component.0 as nat, m);
    } else {
        let rest = levels.take(m - component.len());
        lemma_length(item.component.0 as nat, rest);
        lemma_levels_by_length(rest, 16);
        if rest.len() >= 48 {
            let s2 = parse_levels(rest, 16)->Ok_0.1;
            lemma_levels_by_length(s2, 12);
            if s2.len() >= 36 {
                lemma_levels_by_length(parse_levels(s2, 12)->Ok_0.1, 16);
            }
        }
    }
}

proof fn lemma_cut_body(item: EntityItem, m: int)
    requires
        0 <= m < (generation_bits(item) + state_bits(item)).len(),
    ensures
        parse_body(
            (generation_bits(item) + state_bits(item)).take(m),
            item.kind,
            item.entity.index as nat,
        ) == Err::<(EntityItem, Seq<bool>), BitError>(BitError::Truncated),
{
    let (generation, state) = (generation_bits(item), state_bits(item));
    lemma_cut(generation, state, m);
    if item.kind == ItemKind::Updated {
        assert((generation + state).take(m) =~= state.take(m));
        lemma_cut_state(item, on_arrival(item).entity, m);
    } else if m < generation.len() {
        lemma_cut_length(item.entity.generation as nat, m);
    } else {
        lemma_length(item.entity.generation as nat, state.take(m - generation.len()));
        lemma_cut_state(item, on_arrival(item).entity, m - generation.len());
    }
}

proof fn lemma_cut_item(item: EntityItem, m: int)
    requires
        0 <= m < item_bits(item).len(),
    ensures
        parse_item(item_bits(item).take(m)) == Err::<(EntityItem, Seq<bool>), BitError>(
            BitError::Truncated,
        ),
{
    vstd::arithmetic::power2::lemma2_to64();
    let kind = bitpack::to_bits(kind_code(item.kind), 2);
    let index = bitpack::varint_bits(item.entity.index as nat);
    let body = generation_bits(item) + state_bits(item);
    bitpack::law_bits_round_trip(kind_code(item.kind), 2, Seq::empty());
    lemma_cut(kind, index + body, m);
    if m >= 2 {
        let rest = (index + body).take(m - 2);
        lemma_number(kind_code(item.kind), 2, rest);
        lemma_cut(index, body, m - 2);
        if m - 2 < index.len() {
            lemma_cut_length(item.entity.index as nat, m - 2);
        } else {
            lemma_length(item.entity.index as nat, body.take(m - 2 - index.len()));
            lemma_cut_body(item, m - 2 - index.len());
        }
    }
}

proof fn lemma_cut_items(items: Seq<EntityItem>, m: int)
    requires
        forall|i: int| 0 <= i < items.len() ==> (#[trigger] items[i]).fits(),
        0 <= m < items_bits(items).len(),
    ensures
        parse_items(items_bits(items).take(m), items.len()) == Err::<
            (Seq<EntityItem>, Seq<bool>),
            BitError,
        >(BitError::Truncated),
    decreases items.len(),
{
    if items.len() > 0 {
        let tail = items.drop_first();
        let first = item_bits(items[0]);
        lemma_items_bits_front(items);
        lemma_cut(first, items_bits(tail), m);
        if m < first.len() {
            lemma_cut_item(items[0], m);
        } else {
            assert(items[0].fits());
            lemma_item(items[0], items_bits(tail).take(m - first.len()));
            assert forall|i: int| 0 <= i < tail.len() implies (#[trigger] tail[i]).fits() by {
                assert(tail[i] == items[i + 1]);
            }
            lemma_cut_items(tail, m - first.len());
        }
    }
}

proof fn lemma_cut_name(e: NameEntryView, m: int)
    requires
        encode_utf8(e.name).len() <= u64::MAX,
        0 <= m < name_bits(e).len(),
    ensures
        parse_name(name_bits(e).take(m)) == Err::<(NameEntryView, Seq<bool>), BitError>(
            BitError::Truncated,
        ),
{
    let bytes = encode_utf8(e.name);
    let id = bitpack::varint_bits(e.id.0 as nat);
    let len = bitpack::varint_bits(bytes.len());
    let all = bitpack::bits_of(bytes);
    lemma_cut(id, len + all, m);
    if m < id.len() {
        lemma_cut_length(e.id.0 as nat, m);
    } else {
        lemma_length(e.id.0 as nat, (len + all).take(m - id.len()));
        lemma_cut(len, all, m - id.len());
        if m - id.len() < len.len() {
            lemma_cut_length(bytes.len(), m - id.len());
        } else {
            lemma_length(bytes.len(), all.take(m - id.len() - len.len()));
        }
    }
}

proof fn lemma_cut_names(names: Seq<NameEntryView>, m: int)
    requires
        forall|i: int|
            0 <= i < names.len() ==> encode_utf8((#[trigger] names[i]).name).len() <= u64::MAX,
        0 <= m < names_bits(names).len(),
    ensures
        parse_names(names_bits(names).take(m), names.len()) == Err::<
            (Seq<NameEntryView>, Seq<bool>),
            BitError,
        >(BitError::Truncated),
    decreases names.len(),
{
    if names.len() > 0 {
        let tail = names.drop_first();
        let first = name_bits(names[0]);
        lemma_names_bits_front(names);
        lemma_cut(first, names_bits(tail), m);
        assert(encode_utf8(names[0].name).len() <= u64::MAX);
        if m < first.len() {
            lemma_cut_name(names[0], m);
        } else {
            lemma_name(names[0], names_bits(tail).take(m - first.len()));
            assert forall|i: int| 0 <= i < tail.len() implies encode_utf8(
                (#[trigger] tail[i]).name,
            ).len() <= u64::MAX by {
                assert(tail[i] == names[i + 1]);
            }
            lemma_cut_names(tail, m - first.len());
        }
    }
}

proof fn lemma_cut_core(p: PacketView, m: int)
    requires
        0 <= m < core_bits(p).len(),
    ensures
        parse_core(core_bits(p).take(m)) == Err::<(PacketView, Seq<bool>), BitError>(
            BitError::Truncated,
        ),
{
    vstd::arithmetic::power2::lemma2_to64();
    let tick = bitpack::to_bits(p.tick as nat, 32);
    let index = bitpack::varint_bits(p.your_entity.index as nat);
    let generation = bitpack::varint_bits(p.your_entity.generation as nat);
    let flags = seq![p.is_header] + (seq![p.keyframe] + (index + generation));
    bitpack::law_bits_round_trip(p.tick as nat, 32, Seq::empty());
    lemma_cut(tick, flags, m);
    if m >= 34 {
        let rest = flags.take(m - 32);
        lemma_number(p.tick as nat, 32, rest);
        assert(rest.skip(2) =~= (index + generation).take(m - 34));
        lemma_cut(index, generation, m - 34);
        if m - 34 < index.len() {
            lemma_cut_length(p.your_entity.index as nat, m - 34);
        } else {
            let left = m - 34 - index.len();
            lemma_length(p.your_entity.index as nat, generation.take(left));
            lemma_cut_length(p.your_entity.generation as nat, left);
        }
    } else if m >= 32 {
        lemma_number(p.tick as nat, 32, flags.take(m - 32));
    }
}

proof fn lemma_cut_item_list(items: Seq<EntityItem>, max: nat, m: int)
    requires
        items.len() <= max,
        items.len() <= u64::MAX,
        forall|i: int| 0 <= i < items.len() ==> (#[trigger] items[i]).fits(),
        0 <= m < (bitpack::varint_bits(items.len()) + items_bits(items)).len(),
    ensures
        parse_item_list((bitpack::varint_bits(items.len()) + items_bits(items)).take(m), max)
            == Err::<(Seq<EntityItem>, Seq<bool>), BitError>(BitError::Truncated),
{
    let count = bitpack::varint_bits(items.len());
    lemma_cut(count, items_bits(items), m);
    if m < count.len() {
        lemma_cut_length(items.len(), m);
    } else {
        lemma_length(items.len(), items_bits(items).take(m - count.len()));
        lemma_cut_items(items, m - count.len());
    }
}

/// A packet that is cut short anywhere is refused as truncated: no shorter
/// packet is made of it.
pub proof fn law_a_cut_packet_is_truncated(p: PacketView, max_names: nat, max_items: nat, m: int)
    requires
        p.names.len() <= max_names,
        p.items.len() <= max_items,
        p.names.len() <= u64::MAX,
        p.items.len() <= u64::MAX,
        forall|i: int|
            0 <= i < p.names.len() ==> encode_utf8((#[trigger] p.names[i]).name).len() <= u64::MAX,
        forall|i: int| 0 <= i < p.items.len() ==> (#[trigger] p.items[i]).fits(),
        0 <= m < packet_bits(p).len(),
    ensures
        parse_packet(packet_bits(p).take(m), max_names, max_items) == Err::<PacketView, BitError>(
            BitError::Truncated,
        ),
{
    let (core, table) = (core_bits(p), bitpack::varint_bits(p.names.len()));
    let names = names_bits(p.names);
    let items = bitpack::varint_bits(p.items.len()) + items_bits(p.items);
    lemma_cut(core, table + (names + items), m);
    if m < core.len() {
        lemma_cut_core(p, m);
    } else {
        let m1 = m - core.len();
        lemma_core(p, (table + (names + items)).take(m1));
        lemma_cut(table, names + items, m1);
        if m1 < table.len() {
            lemma_cut_length(p.names.len(), m1);
        } else {
            let m2 = m1 - table.len();
            lemma_length(p.names.len(), (names + items).take(m2));
            lemma_cut(names, items, m2);
            if m2 < names.len() {
                lemma_cut_names(p.names, m2);
            } else {
                lemma_names(p.names, items.take(m2 - names.len()));
                lemma_cut_item_list(p.items, max_items, m2 - names.len());
            }
        }
    }
}

/// A name whose bytes are no text is refused as out of range.
pub proof fn law_a_name_must_be_text(id: u16, bytes: Seq<u8>, rest: Seq<bool>)
    requires
        bytes.len() <= u64::MAX,
        !valid_utf8(bytes),
    ensures
        parse_name(
            bitpack::varint_bits(id as nat) + (bitpack::varint_bits(bytes.len()) + (
            bitpack::bits_of(bytes) + rest)),
        ) == Err::<(NameEntryView, Seq<bool>), BitError>(BitError::OutOfRange),
{
    let body = bitpack::bits_of(bytes) + rest;
    lemma_length(id as nat, bitpack::varint_bits(bytes.len()) + body);
    lemma_length(bytes.len(), body);
    lemma_leading(bytes, rest);
}

/// Numbers that are larger than their fields are cut to them: indices and
/// generations to 32 bits, and the numbers of components to 16.
pub proof fn law_large_numbers_are_cut(
    index: u64,
    generation: u64,
    component: u64,
    s: Seq<bool>,
    rest: Seq<bool>,
)
    ensures
        parse_body(bitpack::varint_bits(generation as nat) + rest, ItemKind::Left, index as nat)
            matches Ok((item, left)) && left == rest && item.kind is Left && item.entity.index
            == index as nat % 0x1_0000_0000 && item.entity.generation == generation as nat
            % 0x1_0000_0000,
        parse_body(s, ItemKind::Updated, index as nat) matches Ok((item, _)) ==> item.entity.index
            == index as nat % 0x1_0000_0000 && item.entity.generation == 0 && item.kind is Updated,
        parse_body(s, ItemKind::Entered, index as nat) matches Ok((item, _)) ==> item.entity.index
            == index as nat % 0x1_0000_0000 && item.kind is Entered,
        s.len() >= 132 ==> {
            let read = parse_state(
                bitpack::varint_bits(component as nat) + s,
                ItemKind::Updated,
                EntityId { index: 0, generation: 0 },
            );
            read is Ok && read->Ok_0.0.component.0 == component as nat % 0x1_0000
                && read->Ok_0.1.len() == s.len() - 132
        },
{
    lemma_length(generation as nat, rest);
    lemma_length(component as nat, s);
    if s.len() >= 132 {
        lemma_levels_by_length(s, 16);
        let s2 = parse_levels(s, 16)->Ok_0.1;
        lemma_levels_by_length(s2, 12);
        lemma_levels_by_length(parse_levels(s2, 12)->Ok_0.1, 16);
    }
}

} // verus!
