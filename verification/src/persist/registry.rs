//! The component name registry: the one place that decides what a save file
//! calls each component type.
//!
//! # The rule
//!
//! **Renaming a Rust type must never change what a save file says.** The name
//! is data you control, declared here; the type is free to move. Once a name
//! has been written to a save file it is a commitment, but
//! [`Registry::rename`] recovers a bad choice.
//!
//! # Cost
//!
//! A name appears once per component type in a snapshot header, never per
//! entity. Names intern to a [`NameId`] at registration, so a per-entity
//! encoding pays two bytes rather than a string.
//!
//! A registry is generic over its codecs: `C` is whatever encodes and decodes
//! a column of one component.

use crate::text;
use std::any::TypeId;
use vstd::hash_map::StringHashMap;
use vstd::prelude::*;
use vstd::string::*;
use vstd::utf8::*;

verus! {

/// The identity of a Rust type in this build, `std::any::TypeId`. Never
/// written to a file.
#[verifier::external_type_specification]
#[verifier::external_body]
pub struct ExTypeId(TypeId);

/// Whether two type ids name the same type, by `TypeId`'s `==`. Equal ids are
/// the same value.
#[verifier::external_body]
fn same_type(a: &TypeId, b: &TypeId) -> (r: bool)
    ensures
        r == (*a == *b),
{
    a == b
}

/// How a component participates in persistence: what happens if it is lost.
#[derive(Copy, Clone, Debug, PartialEq, Eq, Structural)]
pub enum Persist {
    /// Value a player would petition support about: currency, items,
    /// structures, claims. Never stored as a mutable number — the component
    /// is a cache of an append-only ledger.
    Ledgered,
    /// Cheap to lose and reconstructible: position, velocity, health, AI
    /// state. Written to checkpoints, restored from them, re-derived on spawn
    /// if no checkpoint exists.
    Volatile,
    /// Never serialised: particles, floaty text, client-side markers.
    Transient,
}

impl Persist {
    /// Whether a checkpoint carries this component's data.
    pub open spec fn is_saved(self) -> bool {
        self != Persist::Transient
    }

    /// Whether a checkpoint should carry this component's data.
    ///
    /// `Ledgered` is in: a checkpoint caches it for a fast restart, but the
    /// ledger remains authoritative.
    pub fn in_checkpoint(self) -> (r: bool)
        ensures
            r == self.is_saved(),
    {
        matches!(self, Persist::Ledgered | Persist::Volatile)
    }
}

/// Which clients are told about a component.
#[derive(Copy, Clone, Debug, PartialEq, Eq, Structural)]
pub enum Replicate {
    /// Nobody: server-side bookkeeping.
    ServerOnly,
    /// Only the client that owns the entity.
    ToOwner,
    /// Every client that can see the entity.
    ToAll,
}

impl Replicate {
    /// Whether any client is told.
    pub open spec fn is_sent(self) -> bool {
        self != Replicate::ServerOnly
    }

    /// Whether the component ever reaches the wire.
    pub fn on_the_wire(self) -> (r: bool)
        ensures
            r == self.is_sent(),
    {
        !matches!(self, Replicate::ServerOnly)
    }
}

/// An interned component name. Two bytes on the wire and in a snapshot's
/// per-entity encoding, instead of a string.
///
/// Only meaningful relative to the [`Registry`] that issued it — ids are
/// assigned in registration order and are *not* stable across runs. The
/// stable thing is the name.
#[derive(Copy, Clone, Debug, PartialEq, Eq, Hash, PartialOrd, Ord, Structural)]
pub struct NameId(pub u16);

/// A component's registration.
#[derive(Debug)]
pub struct Entry<C> {
    pub name: &'static str,
    pub id: NameId,
    pub persist: Persist,
    pub replicate: Replicate,
    /// Schema version for this component's encoding. Bump when the
    /// component's fields change shape.
    pub version: u32,
    /// The Rust type this name refers to *in this build*. Never written to a
    /// file.
    pub type_id: TypeId,
    /// Encode and decode for this component. `None` for
    /// [`Persist::Transient`], which is never encoded.
    pub codec: Option<C>,
}

impl<C: Clone> Clone for Entry<C> {
    fn clone(&self) -> (copy: Self)
        ensures
            copy.name == self.name,
            copy.id == self.id,
            copy.persist == self.persist,
            copy.replicate == self.replicate,
            copy.version == self.version,
            copy.type_id == self.type_id,
            copy.codec is Some == self.codec is Some,
            self.codec is Some ==> cloned::<C>(self.codec->0, copy.codec->0),
    {
        let codec = match &self.codec {
            Some(c) => Some(c.clone()),
            None => None,
        };
        Entry {
            name: self.name,
            id: self.id,
            persist: self.persist,
            replicate: self.replicate,
            version: self.version,
            type_id: self.type_id,
            codec,
        }
    }
}

/// What went wrong registering a component.
#[derive(Copy, Clone, Debug, PartialEq, Eq)]
pub enum RegistryError {
    /// Two components claimed the same name. Fails loudly here rather than
    /// silently corrupting whichever one loads second.
    DuplicateName(&'static str),
    /// One type registered twice, under different names.
    DuplicateType(&'static str, &'static str),
    /// A name was rejected as unusable in a save file.
    InvalidName(&'static str, &'static str),
    /// `rename` was given a new name nothing is registered under.
    UnknownRename(&'static str),
    /// More than `u16::MAX` component types.
    TooManyComponents,
}

pub enum RegistryErrorView {
    DuplicateName(Seq<char>),
    DuplicateType(Seq<char>, Seq<char>),
    InvalidName(Seq<char>, Seq<char>),
    UnknownRename(Seq<char>),
    TooManyComponents,
}

impl View for RegistryError {
    type V = RegistryErrorView;

    open spec fn view(&self) -> RegistryErrorView {
        match self {
            RegistryError::DuplicateName(n) => RegistryErrorView::DuplicateName(n@),
            RegistryError::DuplicateType(a, b) => RegistryErrorView::DuplicateType(a@, b@),
            RegistryError::InvalidName(n, why) => RegistryErrorView::InvalidName(n@, why@),
            RegistryError::UnknownRename(n) => RegistryErrorView::UnknownRename(n@),
            RegistryError::TooManyComponents => RegistryErrorView::TooManyComponents,
        }
    }
}

impl RegistryErrorView {
    /// The sentence shown for each error.
    pub open spec fn text(self) -> Seq<char> {
        match self {
            RegistryErrorView::DuplicateName(n) => "component name "@ + text::debug_quoted(n)
                + " registered twice"@,
            RegistryErrorView::DuplicateType(a, b) => "one type registered under two names: "@
                + text::debug_quoted(a) + " and "@ + text::debug_quoted(b),
            RegistryErrorView::InvalidName(n, why) => "component name "@ + text::debug_quoted(n)
                + " is invalid: "@ + why,
            RegistryErrorView::UnknownRename(n) => "rename from "@ + text::debug_quoted(n)
                + ", which is not registered"@,
            RegistryErrorView::TooManyComponents => "more than 65535 component types registered"@,
        }
    }
}

impl RegistryError {
    /// A human-readable description of the error.
    pub fn message(&self) -> (s: String)
        ensures
            s@ == self@.text(),
    {
        match self {
            RegistryError::DuplicateName(n) => {
                let mut s = "component name ".to_owned();
                s.append(text::quoted(n).as_str());
                s.append(" registered twice");
                s
            },
            RegistryError::DuplicateType(a, b) => {
                let mut s = "one type registered under two names: ".to_owned();
                s.append(text::quoted(a).as_str());
                s.append(" and ");
                s.append(text::quoted(b).as_str());
                s
            },
            RegistryError::InvalidName(n, why) => {
                let mut s = "component name ".to_owned();
                s.append(text::quoted(n).as_str());
                s.append(" is invalid: ");
                s.append(why);
                s
            },
            RegistryError::UnknownRename(n) => {
                let mut s = "rename from ".to_owned();
                s.append(text::quoted(n).as_str());
                s.append(", which is not registered");
                s
            },
            RegistryError::TooManyComponents => {
                "more than 65535 component types registered".to_owned()
            },
        }
    }
}

// ---------------------------------------------------------------------------
// Names.
// ---------------------------------------------------------------------------

/// The white space of ASCII.
pub open spec fn is_blank(c: char) -> bool {
    c == ' ' || 9 <= c as int <= 13
}

/// The upper-case letters of ASCII.
pub open spec fn is_upper(c: char) -> bool {
    65 <= c as int <= 90
}

/// Why a name may not be used.
///
/// Names go into files and error messages, so they are kept boring: one that
/// round-trips badly through a hand edit or a diff is a silent load failure
/// later.
pub open spec fn name_complaint(name: Seq<char>) -> Option<Seq<char>> {
    if name.len() == 0 {
        Some("must not be empty"@)
    } else if encode_utf8(name).len() > 64 {
        Some("must be 64 bytes or fewer"@)
    } else if !is_ascii_chars(name) {
        Some("must be ASCII"@)
    } else if exists|i: int| 0 <= i < name.len() && is_blank(#[trigger] name[i]) {
        Some("must not contain whitespace"@)
    } else if exists|i: int| 0 <= i < name.len() && is_upper(#[trigger] name[i]) {
        Some("must be lowercase, so a case-insensitive filesystem cannot merge two names"@)
    } else {
        None
    }
}

/// Check a name.
fn validate_name(name: &'static str) -> (res: Result<(), RegistryError>)
    ensures
        match name_complaint(name@) {
            Some(why) => res is Err && res->Err_0@ == RegistryErrorView::InvalidName(name@, why),
            None => res is Ok,
        },
{
    if name.is_empty() {
        return Err(RegistryError::InvalidName(name, "must not be empty"));
    }
    if name.as_bytes().len() > 64 {
        return Err(RegistryError::InvalidName(name, "must be 64 bytes or fewer"));
    }
    if !name.is_ascii() {
        return Err(RegistryError::InvalidName(name, "must be ASCII"));
    }
    let n: usize = name.unicode_len();
    let mut blank = false;
    let mut upper = false;
    let mut i: usize = 0;
    while i < n
        invariant
            i <= n == name@.len(),
            blank == exists|j: int| 0 <= j < i && is_blank(#[trigger] name@[j]),
            upper == exists|j: int| 0 <= j < i && is_upper(#[trigger] name@[j]),
        decreases n - i,
    {
        let c: char = name.get_char(i);
        let code: u32 = c as u32;
        let ghost had = (blank, upper);
        if c == ' ' || (9 <= code && code <= 13) {
            blank = true;
        }
        if 65 <= code && code <= 90 {
            upper = true;
        }
        i = i + 1;
        proof {
            if had.0 {
                let j = choose|j: int| 0 <= j < i - 1 && is_blank(#[trigger] name@[j]);
            }
        }
    }
    if blank {
        return Err(RegistryError::InvalidName(name, "must not contain whitespace"));
    }
    if upper {
        return Err(
            RegistryError::InvalidName(
                name,
                "must be lowercase, so a case-insensitive filesystem cannot merge two names",
            ),
        );
    }
    Ok(())
}

// ---------------------------------------------------------------------------
// The registry.
// ---------------------------------------------------------------------------

/// Whether a name is taken.
pub open spec fn has_name<C>(es: Seq<Entry<C>>, name: Seq<char>) -> bool {
    exists|i: int| 0 <= i < es.len() && (#[trigger] es[i]).name@ == name
}

/// Whether a type is registered.
pub open spec fn has_type<C>(es: Seq<Entry<C>>, t: TypeId) -> bool {
    exists|i: int| 0 <= i < es.len() && (#[trigger] es[i]).type_id == t
}

/// The registration of a type.
pub open spec fn entry_of_type<C>(es: Seq<Entry<C>>, t: TypeId) -> Entry<C> {
    es[choose|i: int| 0 <= i < es.len() && (#[trigger] es[i]).type_id == t]
}

/// What a registration is answered: the next number, or why not.
pub open spec fn registration<C>(es: Seq<Entry<C>>, name: Seq<char>, t: TypeId) -> Result<
    NameId,
    RegistryErrorView,
> {
    match name_complaint(name) {
        Some(why) => Err(RegistryErrorView::InvalidName(name, why)),
        None => if has_name(es, name) {
            Err(RegistryErrorView::DuplicateName(name))
        } else if has_type(es, t) {
            Err(RegistryErrorView::DuplicateType(entry_of_type(es, t).name@, name))
        } else if es.len() >= u16::MAX {
            Err(RegistryErrorView::TooManyComponents)
        } else {
            Ok(NameId(es.len() as u16))
        },
    }
}

/// The entries after a registration was asked for.
pub open spec fn registered<C>(es: Seq<Entry<C>>, e: Entry<C>) -> Seq<Entry<C>> {
    if registration(es, e.name@, e.type_id) is Ok {
        es.push(e)
    } else {
        es
    }
}

/// Maps component types to the names a save file knows them by.
///
/// Built once at startup, then read-only. A game registers every component it
/// persists; [`Registry::audit`] then catches anything present in the world
/// but never classified.
pub struct Registry<C> {
    entries: Vec<Entry<C>>,
    by_name: StringHashMap<NameId>,
    /// Old name -> current name, for snapshots written before a rename.
    aliases: StringHashMap<&'static str>,
}

#[verifier::ext_equal]
pub struct RegistryView<C> {
    /// The registrations, in the order they were made.
    pub entries: Seq<Entry<C>>,
    /// Old name to current name.
    pub aliases: Map<Seq<char>, Seq<char>>,
}

impl<C> RegistryView<C> {
    /// The name that a saved name stands for now. Aliases are looked up
    /// first, and once.
    pub open spec fn current(self, name: Seq<char>) -> Seq<char> {
        if self.aliases.contains_key(name) {
            self.aliases[name]
        } else {
            name
        }
    }

    /// What every registry keeps: entries are numbered in the order they were
    /// made; no two share a name or a type; every name is usable; only
    /// components that are saved carry a codec; every alias leads to a name.
    pub open spec fn wf(self) -> bool {
        &&& self.entries.len() <= u16::MAX
        &&& forall|i: int|
            0 <= i < self.entries.len() ==> {
                &&& (#[trigger] self.entries[i]).id.0 == i
                &&& name_complaint(self.entries[i].name@) is None
                &&& self.entries[i].codec is Some == self.entries[i].persist.is_saved()
            }
        &&& forall|i: int, j: int|
            0 <= i < j < self.entries.len() ==> {
                &&& (#[trigger] self.entries[i]).name@ != (#[trigger] self.entries[j]).name@
                &&& self.entries[i].type_id != self.entries[j].type_id
            }
        &&& forall|old_name: Seq<char>| #[trigger]
            self.aliases.contains_key(old_name) ==> has_name(self.entries, self.aliases[old_name])
    }
}

impl<C> View for Registry<C> {
    type V = RegistryView<C>;

    closed spec fn view(&self) -> RegistryView<C> {
        RegistryView {
            entries: self.entries@,
            aliases: self.aliases@.map_values(|s: &'static str| s@),
        }
    }
}

impl<C> Default for Registry<C> {
    fn default() -> (r: Self)
        ensures
            r.wf(),
            r@.entries == Seq::<Entry<C>>::empty(),
            r@.aliases == Map::<Seq<char>, Seq<char>>::empty(),
    {
        Registry::new()
    }
}

impl<C> Registry<C> {
    /// The registry is sound, and its index finds every name.
    pub closed spec fn wf(&self) -> bool {
        &&& self@.wf()
        &&& forall|i: int|
            0 <= i < self.entries@.len() ==> self.by_name@.contains_key(
                (#[trigger] self.entries@[i]).name@,
            ) && self.by_name@[self.entries@[i].name@] == self.entries@[i].id
        &&& forall|name: Seq<char>| #[trigger]
            self.by_name@.contains_key(name) ==> self.by_name@[name].0 < self.entries@.len()
                && self.entries@[self.by_name@[name].0 as int].name@ == name
    }

    /// What a well-formed registry gives.
    pub proof fn lemma_wf(&self)
        requires
            self.wf(),
        ensures
            self@.wf(),
    {
    }

    /// A registry with no entries.
    pub fn new() -> (r: Self)
        ensures
            r.wf(),
            r@.entries == Seq::<Entry<C>>::empty(),
            r@.aliases == Map::<Seq<char>, Seq<char>>::empty(),
    {
        let r = Registry {
            entries: Vec::new(),
            by_name: StringHashMap::new(),
            aliases: StringHashMap::new(),
        };
        r
    }

    /// Register a type under `name`.
    ///
    /// The name is what a save file records, so it must outlive any
    /// refactoring of the type. Prefer a short, lowercase, stable noun —
    /// `"transform2d"`, `"wallet"`. A component that is never saved is
    /// registered with [`register_transient`], and needs no codec.
    ///
    /// [`register_transient`]: Registry::register_transient
    pub fn register(
        &mut self,
        name: &'static str,
        persist: Persist,
        type_id: TypeId,
        codec: C,
    ) -> (res: Result<NameId, RegistryError>)
        requires
            old(self).wf(),
            persist != Persist::Transient,
        ensures
            final(self).wf(),
            final(self)@.aliases == old(self)@.aliases,
            final(self)@.entries == registered(
                old(self)@.entries,
                (Entry {
                    name,
                    id: NameId(old(self)@.entries.len() as u16),
                    persist,
                    replicate: Replicate::ServerOnly,
                    version: 1,
                    type_id,
                    codec: Some(codec),
                }),
            ),
            match registration(old(self)@.entries, name@, type_id) {
                Ok(id) => res == Ok::<NameId, RegistryError>(id),
                Err(e) => res is Err && res->Err_0@ == e,
            },
    {
        self.register_versioned(name, persist, 1, type_id, codec)
    }

    /// [`register`] with an explicit schema version.
    ///
    /// [`register`]: Registry::register
    pub fn register_versioned(
        &mut self,
        name: &'static str,
        persist: Persist,
        version: u32,
        type_id: TypeId,
        codec: C,
    ) -> (res: Result<NameId, RegistryError>)
        requires
            old(self).wf(),
            persist != Persist::Transient,
        ensures
            final(self).wf(),
            final(self)@.aliases == old(self)@.aliases,
            final(self)@.entries == registered(
                old(self)@.entries,
                (Entry {
                    name,
                    id: NameId(old(self)@.entries.len() as u16),
                    persist,
                    replicate: Replicate::ServerOnly,
                    version,
                    type_id,
                    codec: Some(codec),
                }),
            ),
            match registration(old(self)@.entries, name@, type_id) {
                Ok(id) => res == Ok::<NameId, RegistryError>(id),
                Err(e) => res is Err && res->Err_0@ == e,
            },
    {
        self.insert_entry(name, persist, Replicate::ServerOnly, version, type_id, Some(codec))
    }

    /// Register a component that clients are told about.
    pub fn register_replicated(
        &mut self,
        name: &'static str,
        persist: Persist,
        replicate: Replicate,
        type_id: TypeId,
        codec: C,
    ) -> (res: Result<NameId, RegistryError>)
        requires
            old(self).wf(),
            persist != Persist::Transient,
        ensures
            final(self).wf(),
            final(self)@.aliases == old(self)@.aliases,
            final(self)@.entries == registered(
                old(self)@.entries,
                (Entry {
                    name,
                    id: NameId(old(self)@.entries.len() as u16),
                    persist,
                    replicate,
                    version: 1,
                    type_id,
                    codec: Some(codec),
                }),
            ),
            match registration(old(self)@.entries, name@, type_id) {
                Ok(id) => res == Ok::<NameId, RegistryError>(id),
                Err(e) => res is Err && res->Err_0@ == e,
            },
    {
        self.insert_entry(name, persist, replicate, 1, type_id, Some(codec))
    }

    /// Register a component that is never written to a save file.
    ///
    /// Registering it at all is still worthwhile: it is what stops [`audit`]
    /// flagging it as forgotten.
    ///
    /// [`audit`]: Registry::audit
    pub fn register_transient(&mut self, name: &'static str, type_id: TypeId) -> (res: Result<
        NameId,
        RegistryError,
    >)
        requires
            old(self).wf(),
        ensures
            final(self).wf(),
            final(self)@.aliases == old(self)@.aliases,
            final(self)@.entries == registered(
                old(self)@.entries,
                (Entry {
                    name,
                    id: NameId(old(self)@.entries.len() as u16),
                    persist: Persist::Transient,
                    replicate: Replicate::ServerOnly,
                    version: 1,
                    type_id,
                    codec: None,
                }),
            ),
            match registration(old(self)@.entries, name@, type_id) {
                Ok(id) => res == Ok::<NameId, RegistryError>(id),
                Err(e) => res is Err && res->Err_0@ == e,
            },
    {
        self.insert_entry(name, Persist::Transient, Replicate::ServerOnly, 1, type_id, None)
    }

    /// Register a component that clients are told about and no save file
    /// holds.
    pub fn register_replicated_transient(
        &mut self,
        name: &'static str,
        replicate: Replicate,
        type_id: TypeId,
    ) -> (res: Result<NameId, RegistryError>)
        requires
            old(self).wf(),
        ensures
            final(self).wf(),
            final(self)@.aliases == old(self)@.aliases,
            final(self)@.entries == registered(
                old(self)@.entries,
                (Entry {
                    name,
                    id: NameId(old(self)@.entries.len() as u16),
                    persist: Persist::Transient,
                    replicate,
                    version: 1,
                    type_id,
                    codec: None,
                }),
            ),
            match registration(old(self)@.entries, name@, type_id) {
                Ok(id) => res == Ok::<NameId, RegistryError>(id),
                Err(e) => res is Err && res->Err_0@ == e,
            },
    {
        self.insert_entry(name, Persist::Transient, replicate, 1, type_id, None)
    }

    /// The shared body of the registration paths.
    fn insert_entry(
        &mut self,
        name: &'static str,
        persist: Persist,
        replicate: Replicate,
        version: u32,
        type_id: TypeId,
        codec: Option<C>,
    ) -> (res: Result<NameId, RegistryError>)
        requires
            old(self).wf(),
            codec is Some == persist.is_saved(),
        ensures
            final(self).wf(),
            final(self)@.aliases == old(self)@.aliases,
            final(self)@.entries == registered(
                old(self)@.entries,
                (Entry {
                    name,
                    id: NameId(old(self)@.entries.len() as u16),
                    persist,
                    replicate,
                    version,
                    type_id,
                    codec,
                }),
            ),
            match registration(old(self)@.entries, name@, type_id) {
                Ok(id) => res == Ok::<NameId, RegistryError>(id),
                Err(e) => res is Err && res->Err_0@ == e,
            },
    {
        let ghost before = *self;
        match validate_name(name) {
            Err(e) => {
                return Err(e);
            },
            Ok(()) => {},
        }
        proof {
            if has_name(before@.entries, name@) {
                let i = choose|i: int|
                    0 <= i < before@.entries.len() && (#[trigger] before@.entries[i]).name@
                        == name@;
            }
        }
        if self.by_name.contains_key(name) {
            return Err(RegistryError::DuplicateName(name));
        }
        match self.type_index(&type_id) {
            Some(at) => {
                return Err(RegistryError::DuplicateType(self.entries[at].name, name));
            },
            None => {},
        }
        if self.entries.len() >= u16::MAX as usize {
            return Err(RegistryError::TooManyComponents);
        }
        let id = NameId(self.entries.len() as u16);
        self.entries.push(Entry { name, id, persist, replicate, version, type_id, codec });
        self.by_name.insert(name.to_owned(), id);
        proof {
            let es = before@.entries;
            let now = self@.entries;
            assert forall|i: int, j: int| 0 <= i < j < now.len() implies {
                &&& (#[trigger] now[i]).name@ != (#[trigger] now[j]).name@
                &&& now[i].type_id != now[j].type_id
            } by {
            }
            assert forall|old_name: Seq<char>| #[trigger]
                self@.aliases.contains_key(old_name) implies has_name(
                now,
                self@.aliases[old_name],
            ) by {
                assert(before@.aliases.contains_key(old_name));
                let i = choose|i: int|
                    0 <= i < es.len() && (#[trigger] es[i]).name@ == self@.aliases[old_name];
                assert(now[i] == es[i]);
            }
            assert forall|i: int| 0 <= i < now.len() implies self.by_name@.contains_key(
                (#[trigger] now[i]).name@,
            ) && self.by_name@[now[i].name@] == now[i].id by {
            }
        }
        Ok(id)
    }

    /// Where a type is registered.
    fn type_index(&self, type_id: &TypeId) -> (r: Option<usize>)
        requires
            self@.wf(),
        ensures
            match r {
                Some(at) => {
                    &&& at < self@.entries.len()
                    &&& has_type(self@.entries, *type_id)
                    &&& self@.entries[at as int] == entry_of_type(self@.entries, *type_id)
                },
                None => !has_type(self@.entries, *type_id),
            },
    {
        let mut i: usize = 0;
        while i < self.entries.len()
            invariant
                self@.wf(),
                i <= self.entries@.len(),
                forall|j: int| 0 <= j < i ==> (#[trigger] self.entries@[j]).type_id != *type_id,
            decreases self.entries@.len() - i,
        {
            if same_type(&self.entries[i].type_id, type_id) {
                proof {
                    let es = self@.entries;
                    let c = choose|c: int|
                        0 <= c < es.len() && (#[trigger] es[c]).type_id == *type_id;
                    assert(c == i);
                }
                return Some(i);
            }
            i = i + 1;
        }
        None
    }

    /// Record that a component previously saved as `old_name` is now `new`.
    ///
    /// This is what makes a badly-chosen name recoverable rather than
    /// permanent: the load path resolves the old name through the alias, so
    /// existing save files keep working while new ones use `new`. Call it
    /// after registering `new`.
    pub fn rename(&mut self, old_name: &str, new: &'static str) -> (res: Result<(), RegistryError>)
        requires
            old(self).wf(),
        ensures
            final(self).wf(),
            final(self)@.entries == old(self)@.entries,
            match res {
                Ok(()) => {
                    &&& has_name(old(self)@.entries, new@)
                    &&& final(self)@.aliases == old(self)@.aliases.insert(old_name@, new@)
                },
                Err(e) => {
                    &&& !has_name(old(self)@.entries, new@)
                    &&& final(self)@.aliases == old(self)@.aliases
                    &&& e@ == RegistryErrorView::UnknownRename(new@)
                },
            },
    {
        let ghost before = *self;
        if !self.by_name.contains_key(new) {
            return Err(RegistryError::UnknownRename(new));
        }
        self.aliases.insert(old_name.to_owned(), new);
        proof {
            assert(self@.aliases =~= before@.aliases.insert(old_name@, new@));
        }
        Ok(())
    }

    /// Look up by the name a snapshot recorded, following any alias.
    pub fn by_name(&self, name: &str) -> (r: Option<&Entry<C>>)
        requires
            self.wf(),
        ensures
            match r {
                Some(e) => {
                    &&& e.id.0 < self@.entries.len()
                    &&& *e == self@.entries[e.id.0 as int]
                    &&& e.name@ == self@.current(name@)
                },
                None => !has_name(self@.entries, self@.current(name@)),
            },
    {
        let current: &str = match self.aliases.get(name) {
            Some(c) => *c,
            None => name,
        };
        match self.by_name.get(current) {
            Some(id) => {
                Some(&self.entries[id.0 as usize])
            },
            None => None,
        }
    }

    /// Look up the registration for a Rust type in this build.
    pub fn by_type(&self, type_id: TypeId) -> (r: Option<&Entry<C>>)
        requires
            self.wf(),
        ensures
            match r {
                Some(e) => has_type(self@.entries, type_id) && *e == entry_of_type(
                    self@.entries,
                    type_id,
                ),
                None => !has_type(self@.entries, type_id),
            },
    {
        match self.type_index(&type_id) {
            Some(at) => Some(&self.entries[at]),
            None => None,
        }
    }

    /// Look up by number.
    pub fn by_id(&self, id: NameId) -> (r: Option<&Entry<C>>)
        ensures
            match r {
                Some(e) => id.0 < self@.entries.len() && *e == self@.entries[id.0 as int],
                None => id.0 >= self@.entries.len(),
            },
    {
        if (id.0 as usize) < self.entries.len() {
            Some(&self.entries[id.0 as usize])
        } else {
            None
        }
    }

    /// Every registration, in the order it was made.
    pub fn entries(&self) -> (r: &[Entry<C>])
        ensures
            r@ == self@.entries,
    {
        self.entries.as_slice()
    }

    /// How many components are registered.
    pub fn len(&self) -> (n: usize)
        ensures
            n == self@.entries.len(),
    {
        self.entries.len()
    }

    /// Whether no component is registered.
    pub fn is_empty(&self) -> (r: bool)
        ensures
            r == (self@.entries.len() == 0),
    {
        self.entries.len() == 0
    }

    /// Fail if any component type present in a world was never registered.
    ///
    /// The failure this prevents: adding a component, forgetting to classify
    /// it, and discovering after launch that it was silently absent from every
    /// save. Returns the offending names, in the order they were given.
    pub fn audit(&self, present: &[(TypeId, &'static str)]) -> (res: Result<(), Vec<&'static str>>)
        requires
            self.wf(),
        ensures
            match res {
                Ok(()) => forgotten(self@.entries, present@).len() == 0,
                Err(names) => {
                    &&& forgotten(self@.entries, present@).len() > 0
                    &&& names@ == forgotten(self@.entries, present@)
                },
            },
    {
        let mut missing: Vec<&'static str> = Vec::new();
        let mut i: usize = 0;
        let ghost all = present@;
        while i < present.len()
            invariant
                self@.wf(),
                i <= present@.len(),
                all == present@,
                missing@ == forgotten(self@.entries, all.take(i as int)),
            decreases present@.len() - i,
        {
            proof {
                assert(all.take(i + 1).drop_last() =~= all.take(i as int));
            }
            if self.type_index(&present[i].0).is_none() {
                missing.push(present[i].1);
            }
            i = i + 1;
        }
        assert(all.take(i as int) =~= all);
        if missing.len() == 0 {
            Ok(())
        } else {
            Err(missing)
        }
    }
}

/// The names of the types that are not registered, in the order given.
pub open spec fn forgotten<C>(
    es: Seq<Entry<C>>,
    present: Seq<(TypeId, &'static str)>,
) -> Seq<&'static str>
    decreases present.len(),
{
    if present.len() == 0 {
        Seq::empty()
    } else if has_type(es, present.last().0) {
        forgotten(es, present.drop_last())
    } else {
        forgotten(es, present.drop_last()).push(present.last().1)
    }
}

// ---------------------------------------------------------------------------
// Laws.
// ---------------------------------------------------------------------------

/// A registration disturbs none that came before: every earlier name and type
/// finds the entry it found, under the same number.
pub proof fn law_registering_disturbs_nothing<C>(es: Seq<Entry<C>>, e: Entry<C>, i: int)
    requires
        0 <= i < es.len(),
    ensures
        registered(es, e)[i] == es[i],
        registered(es, e).len() >= es.len(),
{
}

/// A name is claimed once: after a registration under it, every further one
/// under that name is refused.
pub proof fn law_a_name_is_claimed_once<C>(es: Seq<Entry<C>>, e: Entry<C>, t: TypeId)
    requires
        registration(es, e.name@, e.type_id) is Ok,
    ensures
        registration(registered(es, e), e.name@, t) == Err::<NameId, RegistryErrorView>(
            RegistryErrorView::DuplicateName(e.name@),
        ),
{
    assert(registered(es, e)[es.len() as int] == e);
}

/// A type has one name: after its registration, every further one under
/// another usable and free name is refused, and the refusal names both.
pub proof fn law_a_type_has_one_name<C>(es: Seq<Entry<C>>, e: Entry<C>, name: Seq<char>)
    requires
        registration(es, e.name@, e.type_id) is Ok,
        name_complaint(name) is None,
        !has_name(registered(es, e), name),
    ensures
        registration(registered(es, e), name, e.type_id) == Err::<NameId, RegistryErrorView>(
            RegistryErrorView::DuplicateType(e.name@, name),
        ),
{
    let now = registered(es, e);
    assert(now[es.len() as int] == e);
}

/// A renamed component is found under its old name as well as under its new
/// one, unless the new name is itself the old name of something else.
pub proof fn law_a_rename_keeps_both_names<C>(v: RegistryView<C>, old_name: Seq<char>, new: Seq<char>)
    requires
        v.wf(),
        has_name(v.entries, new),
    ensures
        ({
            let after = RegistryView { aliases: v.aliases.insert(old_name, new), ..v };
            &&& after.wf()
            &&& after.current(old_name) == new
            &&& has_name(after.entries, after.current(old_name))
            &&& !v.aliases.contains_key(new) ==> after.current(new) == new
        }),
{
}

/// A name may be used exactly where it has characters, no more than 64 bytes of
/// them, and each is printable ASCII that is no capital letter.
pub proof fn law_which_names_may_be_used(name: Seq<char>)
    ensures
        name_complaint(name) is None <==> (0 < name.len() && encode_utf8(name).len() <= 64
            && is_ascii_chars(name) && forall|i: int|
            0 <= i < name.len() ==> (#[trigger] name[i]) != ' ' && !(9 <= name[i] as int <= 13) && !(
            'A' as int <= name[i] as int <= 'Z' as int)),
        name.len() == 0 ==> name_complaint(name) == Some("must not be empty"@),
        name.len() > 0 && encode_utf8(name).len() > 64 ==> name_complaint(name) == Some(
            "must be 64 bytes or fewer"@,
        ),
        name.len() > 0 && encode_utf8(name).len() <= 64 && !is_ascii_chars(name) ==> name_complaint(
            name,
        ) == Some("must be ASCII"@),
        forall|i: int|
            0 <= i < name.len() && encode_utf8(name).len() <= 64 && is_ascii_chars(name) && (
            #[trigger] name[i] == ' ' || 9 <= name[i] as int <= 13) ==> name_complaint(name)
                == Some("must not contain whitespace"@),
        forall|i: int|
            0 <= i < name.len() && encode_utf8(name).len() <= 64 && is_ascii_chars(name) && 'A' as int
                <= #[trigger] name[i] as int <= 'Z' as int && (forall|j: int|
                0 <= j < name.len() ==> (#[trigger] name[j]) != ' ' && !(9 <= name[j] as int <= 13))
                ==> name_complaint(name) == Some(
                "must be lowercase, so a case-insensitive filesystem cannot merge two names"@,
            ),
{
    let usable = forall|i: int|
        0 <= i < name.len() ==> (#[trigger] name[i]) != ' ' && !(9 <= name[i] as int <= 13) && !(
        'A' as int <= name[i] as int <= 'Z' as int);
    if usable {
        assert(forall|i: int|
            0 <= i < name.len() ==> !is_blank(#[trigger] name[i]) && !is_upper(name[i]));
    } else {
        let i = choose|i: int|
            0 <= i < name.len() && !((#[trigger] name[i]) != ' ' && !(9 <= name[i] as int <= 13)
                && !('A' as int <= name[i] as int <= 'Z' as int));
        assert(is_blank(name[i]) || is_upper(name[i]));
    }
    assert forall|i: int|
        0 <= i < name.len() && encode_utf8(name).len() <= 64 && is_ascii_chars(name) && 'A' as int
            <= #[trigger] name[i] as int <= 'Z' as int && (forall|j: int|
            0 <= j < name.len() ==> (#[trigger] name[j]) != ' ' && !(9 <= name[j] as int
                <= 13)) implies name_complaint(name) == Some(
        "must be lowercase, so a case-insensitive filesystem cannot merge two names"@,
    ) by {
        assert(is_upper(name[i]));
        assert(forall|j: int| 0 <= j < name.len() ==> !is_blank(#[trigger] name[j]));
    }
}

/// A registration succeeds exactly where the name may be used, no entry has it,
/// no entry has the type, and there is a number left; it then gets the next
/// number, and its entry goes behind all the others.
pub proof fn law_when_a_registration_succeeds<C>(es: Seq<Entry<C>>, e: Entry<C>)
    ensures
        registration(es, e.name@, e.type_id) is Ok <==> (name_complaint(e.name@) is None && (
        forall|i: int|
            0 <= i < es.len() ==> (#[trigger] es[i]).name@ != e.name@ && es[i].type_id != e.type_id)
            && es.len() < 65_535),
        registration(es, e.name@, e.type_id) is Ok ==> registration(
            es,
            e.name@,
            e.type_id,
        )->Ok_0.0 == es.len() && registered(es, e).len() == es.len() + 1 && registered(
            es,
            e,
        ).last() == e,
        registration(es, e.name@, e.type_id) is Err ==> registered(es, e) == es,
{
    if forall|i: int|
        0 <= i < es.len() ==> (#[trigger] es[i]).name@ != e.name@ && es[i].type_id != e.type_id {
        assert(!has_name(es, e.name@));
        assert(!has_type(es, e.type_id));
    } else {
        let i = choose|i: int|
            0 <= i < es.len() && !((#[trigger] es[i]).name@ != e.name@ && es[i].type_id
                != e.type_id);
        assert(has_name(es, e.name@) || has_type(es, e.type_id));
    }
}

/// A refused registration says why: the fault of the name comes first, then a
/// name that is taken, then a type that has one, with both names, and last a
/// registry that is full.
pub proof fn law_a_refused_registration_says_why<C>(
    v: RegistryView<C>,
    name: Seq<char>,
    t: TypeId,
    i: int,
)
    requires
        v.wf(),
        0 <= i < v.entries.len(),
    ensures
        name_complaint(name) is Some ==> registration(v.entries, name, t) == Err::<
            NameId,
            RegistryErrorView,
        >(RegistryErrorView::InvalidName(name, name_complaint(name)->0)),
        v.entries[i].name@ == name ==> registration(v.entries, name, t) == Err::<
            NameId,
            RegistryErrorView,
        >(RegistryErrorView::DuplicateName(name)),
        name_complaint(name) is None && v.entries[i].type_id == t && (forall|j: int|
            0 <= j < v.entries.len() ==> (#[trigger] v.entries[j]).name@ != name) ==> registration(
            v.entries,
            name,
            t,
        ) == Err::<NameId, RegistryErrorView>(
            RegistryErrorView::DuplicateType(v.entries[i].name@, name),
        ),
        name_complaint(name) is None && v.entries.len() == 65_535 && (forall|j: int|
            0 <= j < v.entries.len() ==> (#[trigger] v.entries[j]).name@ != name
                && v.entries[j].type_id != t) ==> registration(v.entries, name, t) == Err::<
            NameId,
            RegistryErrorView,
        >(RegistryErrorView::TooManyComponents),
{
    if v.entries[i].type_id == t {
        assert(has_type(v.entries, t));
        let c = choose|c: int| 0 <= c < v.entries.len() && (#[trigger] v.entries[c]).type_id == t;
        assert(c == i);
    }
}

/// A checkpoint carries what is ledgered and what is volatile; the wire carries
/// what goes to an owner or to all.
pub proof fn law_what_is_saved_and_what_is_sent(
    persist: Persist,
    saved: bool,
    replicate: Replicate,
    sent: bool,
)
    requires
        call_ensures(Persist::in_checkpoint, (persist,), saved),
        call_ensures(Replicate::on_the_wire, (replicate,), sent),
    ensures
        saved <==> persist is Ledgered || persist is Volatile,
        sent <==> replicate is ToOwner || replicate is ToAll,
{
}

/// A lookup by name finds the entry of that name, or of the name that it became
/// where it was renamed, and nothing where neither is registered.
pub proof fn law_a_name_finds_its_entry<C>(
    r: &Registry<C>,
    name: &str,
    found: Option<&Entry<C>>,
    i: int,
)
    requires
        r.wf(),
        call_ensures(Registry::<C>::by_name, (r, name), found),
        0 <= i < r@.entries.len(),
    ensures
        !r@.aliases.contains_key(name@) && r@.entries[i].name@ == name@ ==> found is Some
            && *found->0 == r@.entries[i],
        r@.aliases.contains_key(name@) && r@.entries[i].name@ == r@.aliases[name@] ==> found is Some
            && *found->0 == r@.entries[i],
        found is Some && !r@.aliases.contains_key(name@) ==> found->0.name@ == name@,
        found is Some && r@.aliases.contains_key(name@) ==> found->0.name@ == r@.aliases[name@],
{
    if r@.entries[i].name@ == r@.current(name@) {
        assert(has_name(r@.entries, r@.current(name@)));
        let k = found->0.id.0 as int;
        assert(r@.entries[k].name@ == r@.entries[i].name@);
        assert(k == i);
    }
}

/// A lookup by type finds the entry of that type, and one by number the entry
/// with that number; neither finds anything else.
pub proof fn law_a_type_and_a_number_find_their_entry<C>(
    r: &Registry<C>,
    t: TypeId,
    by_type: Option<&Entry<C>>,
    id: NameId,
    by_id: Option<&Entry<C>>,
    i: int,
)
    requires
        r.wf(),
        call_ensures(Registry::<C>::by_type, (r, t), by_type),
        call_ensures(Registry::<C>::by_id, (r, id), by_id),
        0 <= i < r@.entries.len(),
    ensures
        r@.entries[i].type_id == t ==> by_type is Some && *by_type->0 == r@.entries[i],
        by_type is Some ==> by_type->0.type_id == t,
        id.0 == i ==> by_id is Some && *by_id->0 == r@.entries[i],
        by_id is Some ==> by_id->0.id == id,
        id.0 >= r@.entries.len() ==> by_id is None,
{
    let es = r@.entries;
    if es[i].type_id == t {
        assert(has_type(es, t));
    }
    if has_type(es, t) {
        let c = choose|c: int| 0 <= c < es.len() && (#[trigger] es[c]).type_id == t;
        assert(es[c].type_id == t);
    }
}

proof fn lemma_forgotten_adds<C>(
    es: Seq<Entry<C>>,
    a: Seq<(TypeId, &'static str)>,
    b: Seq<(TypeId, &'static str)>,
)
    ensures
        forgotten(es, a + b) == forgotten(es, a) + forgotten(es, b),
    decreases b.len(),
{
    if b.len() == 0 {
        assert(a + b =~= a);
        assert(forgotten(es, a) + forgotten(es, b) =~= forgotten(es, a));
    } else {
        lemma_forgotten_adds(es, a, b.drop_last());
        assert((a + b).drop_last() =~= a + b.drop_last());
        let (x, y) = (forgotten(es, a), forgotten(es, b.drop_last()));
        assert(x + y.push(b.last().1) =~= (x + y).push(b.last().1));
    }
}

/// An audit names every type that no entry has, each time it is present, in the
/// order in which they were given, and no type that one has.
pub proof fn law_an_audit_names_what_was_forgotten<C>(
    es: Seq<Entry<C>>,
    before: Seq<(TypeId, &'static str)>,
    one: (TypeId, &'static str),
    after: Seq<(TypeId, &'static str)>,
)
    ensures
        (forall|i: int| 0 <= i < es.len() ==> (#[trigger] es[i]).type_id != one.0) ==> forgotten(
            es,
            before + seq![one] + after,
        ) == forgotten(es, before) + seq![one.1] + forgotten(es, after),
        (exists|i: int| 0 <= i < es.len() && (#[trigger] es[i]).type_id == one.0) ==> forgotten(
            es,
            before + seq![one] + after,
        ) == forgotten(es, before) + forgotten(es, after),
        forgotten(es, Seq::empty()).len() == 0,
{
    let none = Seq::<(TypeId, &'static str)>::empty();
    lemma_forgotten_adds(es, before + seq![one], after);
    lemma_forgotten_adds(es, before, seq![one]);
    assert(seq![one].drop_last() =~= none);
    assert(forgotten(es, none) =~= Seq::<&'static str>::empty());
    if has_type(es, one.0) {
        assert(forgotten(es, before) + forgotten(es, seq![one]) =~= forgotten(es, before));
    } else {
        assert(forgotten(es, seq![one]) =~= seq![one.1]);
    }
}

proof fn lemma_nothing_forgotten<C>(es: Seq<Entry<C>>, present: Seq<(TypeId, &'static str)>)
    requires
        forall|k: int| 0 <= k < present.len() ==> has_type(es, (#[trigger] present[k]).0),
    ensures
        forgotten(es, present).len() == 0,
    decreases present.len(),
{
    if present.len() > 0 {
        assert forall|k: int| 0 <= k < present.drop_last().len() implies has_type(
            es,
            (#[trigger] present.drop_last()[k]).0,
        ) by {
            assert(present.drop_last()[k] == present[k]);
        }
        assert(present.last() == present[present.len() - 1]);
        lemma_nothing_forgotten(es, present.drop_last());
    }
}

/// A world passes the audit exactly where every type in it is registered.
pub proof fn law_an_audit_passes_what_is_registered<C>(
    r: &Registry<C>,
    present: &[(TypeId, &'static str)],
    res: Result<(), Vec<&'static str>>,
    i: int,
)
    requires
        r.wf(),
        call_ensures(Registry::<C>::audit, (r, present), res),
        0 <= i < present@.len(),
    ensures
        (forall|j: int| 0 <= j < r@.entries.len() ==> (#[trigger] r@.entries[j]).type_id
            != present@[i].0) ==> res is Err && res->Err_0@.contains(present@[i].1),
        (forall|k: int|
            0 <= k < present@.len() ==> has_type(r@.entries, (#[trigger] present@[k]).0))
            ==> res is Ok,
{
    let es = r@.entries;
    let all = present@;
    if forall|k: int| 0 <= k < all.len() ==> has_type(es, (#[trigger] all[k]).0) {
        lemma_nothing_forgotten(es, all);
    }
    let (before, one, after) = (all.take(i), all[i], all.skip(i + 1));
    assert(all =~= before + seq![one] + after);
    law_an_audit_names_what_was_forgotten(es, before, one, after);
    if forall|j: int| 0 <= j < es.len() ==> (#[trigger] es[j]).type_id != one.0 {
        let names = forgotten(es, all);
        assert(names[forgotten(es, before).len() as int] == one.1);
    }
}

// ---------------------------------------------------------------------------
// What the calls do.
// ---------------------------------------------------------------------------

/// What registering a saved component does. It succeeds exactly where the name
/// may be used and is free, the type is free, and a number is left; the entry
/// then stands behind the others, under the next number, with what was given,
/// for the server alone and in its first version. A refused one changes nothing.
pub proof fn law_what_registering_does<C>(
    name: &'static str,
    persist: Persist,
    type_id: TypeId,
    codec: C,
    res: Result<NameId, RegistryError>,
)
    requires
        persist != Persist::Transient,
    ensures
        forall|r: &mut Registry<C>|
            r.wf() && #[trigger] call_ensures(
                Registry::<C>::register,
                (r, name, persist, type_id, codec),
                res,
            ) ==> {
                let (before, after) = (r@.entries, (*final(r))@.entries);
                let e = after.last();
                &&& res is Ok <==> name_complaint(name@) is None && (forall|i: int|
                    0 <= i < before.len() ==> (#[trigger] before[i]).name@ != name@
                        && before[i].type_id != type_id) && before.len() < 65_535
                &&& res is Err ==> after == before
                &&& res is Ok ==> res->Ok_0.0 == before.len() && after.len() == before.len() + 1
                    && after.drop_last() == before
                &&& res is Ok ==> e.name == name && e.id == res->Ok_0 && e.persist == persist
                    && e.replicate is ServerOnly && e.version == 1 && e.type_id == type_id
                    && e.codec == Some(codec)
                &&& (*final(r))@.aliases == r@.aliases
            },
{
    assert forall|r: &mut Registry<C>|
        r.wf() && #[trigger] call_ensures(
            Registry::<C>::register,
            (r, name, persist, type_id, codec),
            res,
        ) implies {
        let (before, after) = (r@.entries, (*final(r))@.entries);
        &&& res is Ok <==> name_complaint(name@) is None && (forall|i: int|
            0 <= i < before.len() ==> (#[trigger] before[i]).name@ != name@ && before[i].type_id
                != type_id) && before.len() < 65_535
        &&& res is Ok ==> after.drop_last() == before
    } by {
        let e = Entry {
            name,
            id: NameId(r@.entries.len() as u16),
            persist,
            replicate: Replicate::ServerOnly,
            version: 1,
            type_id,
            codec: Some(codec),
        };
        law_when_a_registration_succeeds(r@.entries, e);
        assert(r@.entries.push(e).drop_last() =~= r@.entries);
    }
}

/// What the other ways of registering add: a version, the clients that are told,
/// or that nothing is saved. Each keeps just what it was given.
pub proof fn law_what_each_registration_keeps<C>(
    name: &'static str,
    persist: Persist,
    replicate: Replicate,
    version: u32,
    type_id: TypeId,
    codec: C,
    id: NameId,
)
    requires
        persist != Persist::Transient,
    ensures
        forall|r: &mut Registry<C>|
            r.wf() && #[trigger] call_ensures(
                Registry::<C>::register_versioned,
                (r, name, persist, version, type_id, codec),
                Ok::<NameId, RegistryError>(id),
            ) ==> {
                let e = (*final(r))@.entries.last();
                e.name == name && e.id == id && e.persist == persist && e.replicate is ServerOnly
                    && e.version == version && e.type_id == type_id && e.codec == Some(codec)
            },
        forall|r: &mut Registry<C>|
            r.wf() && #[trigger] call_ensures(
                Registry::<C>::register_replicated,
                (r, name, persist, replicate, type_id, codec),
                Ok::<NameId, RegistryError>(id),
            ) ==> {
                let e = (*final(r))@.entries.last();
                e.name == name && e.id == id && e.persist == persist && e.replicate == replicate
                    && e.version == 1 && e.type_id == type_id && e.codec == Some(codec)
            },
        forall|r: &mut Registry<C>|
            r.wf() && #[trigger] call_ensures(
                Registry::<C>::register_transient,
                (r, name, type_id),
                Ok::<NameId, RegistryError>(id),
            ) ==> {
                let e = (*final(r))@.entries.last();
                e.name == name && e.id == id && e.persist is Transient && e.replicate is ServerOnly
                    && e.version == 1 && e.type_id == type_id && e.codec is None
            },
        forall|r: &mut Registry<C>|
            r.wf() && #[trigger] call_ensures(
                Registry::<C>::register_replicated_transient,
                (r, name, replicate, type_id),
                Ok::<NameId, RegistryError>(id),
            ) ==> {
                let e = (*final(r))@.entries.last();
                e.name == name && e.id == id && e.persist is Transient && e.replicate == replicate
                    && e.version == 1 && e.type_id == type_id && e.codec is None
            },
{
}

/// What a rename does: the old name stands for the new one, where the new one is
/// registered; other names stand for what they did, and no entry changes.
pub proof fn law_what_a_rename_does<C>(
    old_name: &str,
    new: &'static str,
    res: Result<(), RegistryError>,
    other: Seq<char>,
)
    requires
        other != old_name@,
    ensures
        forall|r: &mut Registry<C>|
            r.wf() && #[trigger] call_ensures(Registry::<C>::rename, (r, old_name, new), res) ==> {
                let (before, after) = (r@, (*final(r))@);
                &&& res is Ok <==> exists|i: int|
                    0 <= i < before.entries.len() && (#[trigger] before.entries[i]).name@ == new@
                &&& res is Ok ==> after.current(old_name@) == new@
                &&& res is Err ==> after == before && res->Err_0 is UnknownRename
                    && res->Err_0->UnknownRename_0@ == new@
                &&& after.current(other) == before.current(other)
                &&& after.entries == before.entries
            },
{
    assert forall|r: &mut Registry<C>|
        r.wf() && #[trigger] call_ensures(Registry::<C>::rename, (r, old_name, new), res)
            && res is Err implies (*final(r))@ == r@ by {
        assert((*final(r))@ =~= r@);
    }
}

/// The sentences of the errors name the components that they are about.
pub proof fn law_errors_name_their_components(e: &RegistryError, s: String)
    requires
        call_ensures(RegistryError::message, (e,), s),
    ensures
        *e is DuplicateName ==> s@ == "component name "@ + text::debug_quoted(
            e->DuplicateName_0@,
        ) + " registered twice"@,
        *e is DuplicateType ==> s@ == "one type registered under two names: "@
            + text::debug_quoted(e->DuplicateType_0@) + " and "@ + text::debug_quoted(
            e->DuplicateType_1@,
        ),
        *e is InvalidName ==> s@ == "component name "@ + text::debug_quoted(e->InvalidName_0@)
            + " is invalid: "@ + e->InvalidName_1@,
        *e is UnknownRename ==> s@ == "rename from "@ + text::debug_quoted(e->UnknownRename_0@)
            + ", which is not registered"@,
        *e is TooManyComponents ==> s@ == "more than 65535 component types registered"@,
{
}

/// What a registry lists: every entry, in the order it was registered.
pub proof fn law_what_a_registry_lists<C>(
    fresh: Registry<C>,
    r: &Registry<C>,
    n: usize,
    empty: bool,
    entries: &[Entry<C>],
)
    requires
        call_ensures(Registry::<C>::new, (), fresh),
        call_ensures(Registry::<C>::len, (r,), n),
        call_ensures(Registry::<C>::is_empty, (r,), empty),
        call_ensures(Registry::<C>::entries, (r,), entries),
    ensures
        fresh@.entries.len() == 0 && fresh@.aliases.dom().len() == 0,
        entries@ == r@.entries,
        n == r@.entries.len(),
        empty <==> n == 0,
{
}

} // verus!
