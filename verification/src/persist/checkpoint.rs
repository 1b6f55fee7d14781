//! Putting a [`Snapshot`] on disk, and getting it back after a crash.
//!
//! # The guarantee
//!
//! A checkpoint file is either wholly the old one or wholly the new one.
//! There is no state in which a reader sees half of each, however the process
//! dies. That comes from writing to a temp file, flushing it to the device,
//! and only then renaming it over the target — rename being the one
//! filesystem operation that is atomic. [`law_a_crash_costs_at_most_the_write`]
//! states it.
//!
//! # What crashes cost
//!
//! Killing the process mid-write loses *the write*, never the previous
//! checkpoint. Killing it between checkpoints loses the ticks since the last
//! one.
//!
//! The file system itself is the caller's: [`save`] says which steps to take,
//! in which order and which may fail, and [`load`] asks for the contents of
//! one file after the other. File names are relative to the checkpoint
//! directory.

use crate::persist::snapshot;
use crate::persist::snapshot::{Snapshot, SnapshotError, SnapshotView};
use crate::rotation;
use crate::text;
use vstd::prelude::*;
use vstd::string::*;

verus! {

/// How many historical checkpoints to keep beside the current one.
///
/// More than zero because the newest file is the one most likely to be bad:
/// it is the one that was being written when something went wrong. A
/// predecessor to fall back to turns "the save is corrupt" into "we lost one
/// interval".
pub const DEFAULT_KEEP: usize = 3;

/// Where checkpoints live and how many are kept.
#[derive(Debug)]
pub struct CheckpointConfig {
    /// Directory holding the checkpoint set, as shown in messages. Created if
    /// missing.
    pub dir: String,
    /// Base file name; rotated predecessors get `.1`, `.2`, … suffixes.
    pub name: String,
    /// Historical copies to retain. `0` keeps only the current file and gives
    /// up the fallback described on [`DEFAULT_KEEP`].
    pub keep: usize,
}

impl Clone for CheckpointConfig {
    fn clone(&self) -> (r: Self)
        ensures
            r == *self,
    {
        CheckpointConfig { dir: self.dir.clone(), name: self.name.clone(), keep: self.keep }
    }
}

/// The file that a process writes to before it renames it.
pub open spec fn tmp_name(name: Seq<char>, pid: nat) -> Seq<char> {
    name + "."@ + text::decimal(pid) + ".tmp"@
}

impl CheckpointConfig {
    /// A checkpoint set in a directory, with the default name and retention.
    pub fn new(dir: &str) -> (c: Self)
        ensures
            c.dir@ == dir@,
            c.name@ == "world.ckpt"@,
            c.keep == DEFAULT_KEEP,
    {
        CheckpointConfig {
            dir: dir.to_owned(),
            name: "world.ckpt".to_owned(),
            keep: DEFAULT_KEEP,
        }
    }

    /// The same set under another base name.
    pub fn with_name(self, name: &str) -> (c: Self)
        ensures
            c.dir == self.dir,
            c.name@ == name@,
            c.keep == self.keep,
    {
        CheckpointConfig { dir: self.dir, name: name.to_owned(), keep: self.keep }
    }

    /// The same set with another number of historical copies.
    pub fn with_keep(self, keep: usize) -> (c: Self)
        ensures
            c.dir == self.dir,
            c.name == self.name,
            c.keep == keep,
    {
        CheckpointConfig { dir: self.dir, name: self.name, keep }
    }

    /// The current checkpoint's file.
    pub fn current(&self) -> (f: String)
        ensures
            f@ == rotation::slot(self.name@, 0),
    {
        self.name.clone()
    }

    /// File of the `n`th historical copy (`1` is the most recent).
    pub fn nth(&self, n: usize) -> (f: String)
        ensures
            f@ == rotation::nth_name(self.name@, n as nat),
    {
        rotation::nth_file(self.name.as_str(), n)
    }
}

/// Why a checkpoint could not be written or read.
#[derive(Debug, PartialEq, Eq)]
pub enum CheckpointError {
    /// The snapshot could not be encoded or decoded.
    Snapshot(SnapshotError),
    /// A filesystem operation failed. Carries the path, because "No such file
    /// or directory" without one is a useless thing to find in a log at 3am.
    Io { path: String, source: String },
    /// Every candidate file was unreadable or corrupt.
    NoUsableCheckpoint { tried: Vec<String> },
}

/// Names separated by commas.
pub open spec fn listed(names: Seq<Seq<char>>) -> Seq<char>
    decreases names.len(),
{
    if names.len() == 0 {
        Seq::empty()
    } else if names.len() == 1 {
        names[0]
    } else {
        listed(names.drop_last()) + ", "@ + names.last()
    }
}

/// Strings by what they say.
pub open spec fn texts(names: Seq<String>) -> Seq<Seq<char>> {
    names.map_values(|n: String| n@)
}

impl CheckpointError {
    /// The sentence shown for each error.
    pub open spec fn text(self) -> Seq<char> {
        match self {
            CheckpointError::Snapshot(e) => e@.text(),
            CheckpointError::Io { path, source } => path@ + ": "@ + source@,
            CheckpointError::NoUsableCheckpoint { tried } => "no usable checkpoint among "@
                + text::decimal(tried@.len()) + " candidate(s): "@ + listed(texts(tried@)),
        }
    }

    /// A human-readable description of the error.
    pub fn message(&self) -> (s: String)
        ensures
            s@ == self.text(),
    {
        match self {
            CheckpointError::Snapshot(e) => e.message(),
            CheckpointError::Io { path, source } => {
                let mut s = path.clone();
                s.append(": ");
                s.append(source.as_str());
                s
            },
            CheckpointError::NoUsableCheckpoint { tried } => {
                let mut s = "no usable checkpoint among ".to_owned();
                text::push_decimal(&mut s, tried.len() as u128);
                s.append(" candidate(s): ");
                let ghost head = s@;
                let ghost names = texts(tried@);
                let mut i: usize = 0;
                while i < tried.len()
                    invariant
                        i <= tried@.len(),
                        names == texts(tried@),
                        s@ == head + listed(names.take(i as int)),
                    decreases tried@.len() - i,
                {
                    proof {
                        assert(names.take(i + 1).drop_last() =~= names.take(i as int));
                    }
                    if i > 0 {
                        s.append(", ");
                    }
                    s.append(tried[i].as_str());
                    i = i + 1;
                }
                assert(names.take(i as int) =~= names);
                s
            },
        }
    }
}

// ---------------------------------------------------------------------------
// Saving.
// ---------------------------------------------------------------------------

/// One step of a save.
#[derive(Debug, PartialEq, Eq)]
pub enum Step {
    /// Create the checkpoint directory, and those above it.
    CreateDir,
    /// Create a file with these bytes, and flush them to the device. Without
    /// the flush a rename can land while the contents are still only in the
    /// page cache, which after a power loss yields an atomically-renamed file
    /// full of zeroes.
    WriteSynced { file: String, bytes: Vec<u8> },
    /// Rename a file over another, atomically; best-effort where it only
    /// rotates. A missing predecessor is the normal case on the first few
    /// saves.
    Rotate { from: String, to: String },
    /// Rename the finished file over the current checkpoint, atomically.
    Publish { from: String, to: String },
    /// Make the directory entry itself durable; best-effort, as not every
    /// platform can.
    SyncDir,
}

pub enum StepView {
    CreateDir,
    WriteSynced { file: Seq<char>, bytes: Seq<u8> },
    Rotate { from: Seq<char>, to: Seq<char> },
    Publish { from: Seq<char>, to: Seq<char> },
    SyncDir,
}

impl View for Step {
    type V = StepView;

    open spec fn view(&self) -> StepView {
        match self {
            Step::CreateDir => StepView::CreateDir,
            Step::WriteSynced { file, bytes } => StepView::WriteSynced {
                file: file@,
                bytes: bytes@,
            },
            Step::Rotate { from, to } => StepView::Rotate { from: from@, to: to@ },
            Step::Publish { from, to } => StepView::Publish { from: from@, to: to@ },
            Step::SyncDir => StepView::SyncDir,
        }
    }
}

/// Shuffle existing checkpoints down one slot, dropping the oldest: oldest
/// first, so that none is overwritten before it has moved.
pub open spec fn rotate_steps(name: Seq<char>, keep: nat) -> Seq<StepView> {
    Seq::new(
        keep,
        |j: int| StepView::Rotate {
            from: rotation::slot(name, (keep - 1 - j) as nat),
            to: rotation::slot(name, (keep - j) as nat),
        },
    )
}

/// The steps of a save.
pub open spec fn plan(name: Seq<char>, keep: nat, pid: nat, bytes: Seq<u8>) -> Seq<StepView> {
    seq![
        StepView::CreateDir,
        StepView::WriteSynced { file: tmp_name(name, pid), bytes },
    ] + rotate_steps(name, keep) + seq![
        StepView::Publish { from: tmp_name(name, pid), to: rotation::slot(name, 0) },
        StepView::SyncDir,
    ]
}

/// Steps by what they say.
pub open spec fn step_views(steps: Seq<Step>) -> Seq<StepView> {
    steps.map_values(|s: Step| s@)
}

/// How to write `snapshot` as the current checkpoint, atomically.
///
/// Take the steps in order, and give each outcome to [`after_step`]. The temp
/// name carries the process id, so two processes pointed at the same
/// directory cannot scribble over each other's in-progress write.
pub fn save(cfg: &CheckpointConfig, snapshot: &Snapshot, pid: u32) -> (res: Result<
    Vec<Step>,
    CheckpointError,
>)
    ensures
        res is Ok,
        step_views(res->Ok_0@) == plan(
            cfg.name@,
            cfg.keep as nat,
            pid as nat,
            snapshot::bincode_written(snapshot@),
        ),
{
    let bytes = match snapshot::to_bytes(snapshot) {
        Ok(b) => b,
        Err(e) => {
            return Err(CheckpointError::Snapshot(e));
        },
    };
    Ok(save_steps(cfg, bytes, pid))
}

/// The steps that write these bytes as the current checkpoint.
pub fn save_steps(cfg: &CheckpointConfig, bytes: Vec<u8>, pid: u32) -> (steps: Vec<Step>)
    ensures
        step_views(steps@) == plan(cfg.name@, cfg.keep as nat, pid as nat, bytes@),
{
    let ghost content = bytes@;
    let mut tmp = cfg.name.clone();
    tmp.append(".");
    text::push_decimal(&mut tmp, pid as u128);
    tmp.append(".tmp");
    let ghost t = tmp_name(cfg.name@, pid as nat);
    let mut steps: Vec<Step> = Vec::new();
    steps.push(Step::CreateDir);
    steps.push(Step::WriteSynced { file: tmp.clone(), bytes });
    let ghost head = seq![
        StepView::CreateDir,
        StepView::WriteSynced { file: t, bytes: content },
    ];
    let ghost moves = rotate_steps(cfg.name@, cfg.keep as nat);
    let mut left: usize = cfg.keep;
    while left > 0
        invariant
            left <= cfg.keep,
            moves == rotate_steps(cfg.name@, cfg.keep as nat),
            step_views(steps@) == head + moves.take(cfg.keep - left),
        decreases left,
    {
        let ghost before = steps@;
        steps.push(
            Step::Rotate {
                from: rotation::slot_file(cfg.name.as_str(), left - 1),
                to: rotation::slot_file(cfg.name.as_str(), left),
            },
        );
        proof {
            let j = cfg.keep - left;
            assert(step_views(steps@) =~= step_views(before).push(moves[j]));
        }
        left = left - 1;
    }
    let ghost before = steps@;
    steps.push(Step::Publish { from: tmp, to: cfg.current() });
    steps.push(Step::SyncDir);
    assert(step_views(steps@) =~= step_views(before) + seq![
        StepView::Publish { from: t, to: rotation::slot(cfg.name@, 0) },
        StepView::SyncDir,
    ]);
    steps
}

/// What the failure of a step means: the error that ends the save, or nothing.
///
/// A rotation that cannot happen must not prevent the new checkpoint from
/// being written.
pub fn after_step(cfg: &CheckpointConfig, step: &Step, failure: String) -> (r: Option<
    CheckpointError,
>)
    ensures
        match step {
            Step::CreateDir => r == Some(
                CheckpointError::Io { path: cfg.dir, source: failure },
            ),
            Step::WriteSynced { file, .. } => r == Some(
                CheckpointError::Io { path: *file, source: failure },
            ),
            Step::Publish { from, .. } => r == Some(
                CheckpointError::Io { path: *from, source: failure },
            ),
            Step::Rotate { .. } => r is None,
            Step::SyncDir => r is None,
        },
{
    match step {
        Step::CreateDir => Some(
            CheckpointError::Io { path: cfg.dir.clone(), source: failure },
        ),
        Step::WriteSynced { file, .. } => Some(
            CheckpointError::Io { path: file.clone(), source: failure },
        ),
        Step::Publish { from, .. } => Some(
            CheckpointError::Io { path: from.clone(), source: failure },
        ),
        Step::Rotate { .. } => None,
        Step::SyncDir => None,
    }
}

// ---------------------------------------------------------------------------
// Loading.
// ---------------------------------------------------------------------------

/// The files of a checkpoint set.
pub open spec fn candidate_names(name: Seq<char>, keep: nat) -> Seq<Seq<char>> {
    Seq::new(keep + 1, |i: int| rotation::slot(name, i as nat))
}

/// Current file first, then historical copies newest-first. These are also
/// the files to delete for a fresh start.
pub fn candidates(cfg: &CheckpointConfig) -> (files: Vec<String>)
    requires
        cfg.keep < usize::MAX,
    ensures
        texts(files@) == candidate_names(cfg.name@, cfg.keep as nat),
{
    let mut files: Vec<String> = Vec::new();
    let mut i: usize = 0;
    while i <= cfg.keep
        invariant
            i <= cfg.keep + 1,
            cfg.keep < usize::MAX,
            files@.len() == i,
            forall|j: int| 0 <= j < i ==> (#[trigger] files@[j])@ == rotation::slot(cfg.name@, j as nat),
        decreases cfg.keep + 1 - i,
    {
        files.push(rotation::slot_file(cfg.name.as_str(), i));
        i = i + 1;
    }
    files
}

/// What reading a file gave.
#[derive(Debug, PartialEq, Eq)]
pub enum FileRead {
    /// There is no such file.
    Missing,
    /// It could not be read, for this reason.
    Failed(String),
    /// Its contents.
    Found(Vec<u8>),
}

impl FileRead {
    /// The snapshot that the file holds.
    pub open spec fn usable(self) -> Option<SnapshotView> {
        match self {
            FileRead::Found(bytes) => snapshot::bincode_read(bytes@),
            _ => None,
        }
    }
}

/// `read` gave this outcome for a file.
pub open spec fn was_read<R: Fn(&String) -> FileRead>(
    read: R,
    name: Seq<char>,
    out: FileRead,
) -> bool {
    exists|f: String| f@ == name && #[trigger] call_ensures(read, (&f,), out)
}

/// Whether these bytes are what a save writes.
pub open spec fn is_written(bytes: Seq<u8>) -> bool {
    exists|s: SnapshotView| bytes == #[trigger] snapshot::bincode_written(s)
}

/// The first files were read, in order, and none of them is usable. What a save
/// wrote always is.
pub open spec fn useless<R: Fn(&String) -> FileRead>(
    read: R,
    names: Seq<Seq<char>>,
    outs: Seq<FileRead>,
) -> bool {
    &&& outs.len() <= names.len()
    &&& forall|i: int|
        0 <= i < outs.len() ==> was_read(read, names[i], #[trigger] outs[i])
            && outs[i].usable() is None && !(outs[i] is Found && is_written(
            outs[i]->Found_0@,
        ))
}

/// The files among the first that are there, though not usable.
pub open spec fn damaged(names: Seq<Seq<char>>, outs: Seq<FileRead>) -> Seq<Seq<char>>
    decreases outs.len(),
{
    if outs.len() == 0 {
        Seq::empty()
    } else if outs.last() == FileRead::Missing {
        damaged(names, outs.drop_last())
    } else {
        damaged(names, outs.drop_last()).push(names[outs.len() - 1])
    }
}

/// Load the newest usable checkpoint.
///
/// Tries the current file, then each historical copy in turn. A corrupt or
/// truncated file is skipped rather than fatal — the newest file is precisely
/// the one a crash was most likely to damage, and falling back costs one
/// interval instead of the whole world.
///
/// `Ok(None)` means that there is no checkpoint at all, which is the ordinary
/// first-boot case and not an error.
pub fn load<R: Fn(&String) -> FileRead>(cfg: &CheckpointConfig, read: R) -> (res: Result<
    Option<Snapshot>,
    CheckpointError,
>)
    requires
        cfg.keep < usize::MAX,
        forall|f: &String| #[trigger] call_requires(read, (f,)),
    ensures
        ({
            let names = candidate_names(cfg.name@, cfg.keep as nat);
            match res {
                Ok(Some(s)) => exists|outs: Seq<FileRead>, last: FileRead|
                    #[trigger] useless(read, names, outs) && outs.len() < names.len()
                        && #[trigger] was_read(read, names[outs.len() as int], last)
                        && last.usable() == Some(s@) && last is Found && forall|t: SnapshotView|
                        last->Found_0@ == #[trigger] snapshot::bincode_written(t) ==> s@ == t,
                Ok(None) => exists|outs: Seq<FileRead>|
                    #[trigger] useless(read, names, outs) && outs.len() == names.len()
                        && damaged(names, outs).len() == 0,
                Err(e) => exists|outs: Seq<FileRead>|
                    #[trigger] useless(read, names, outs) && outs.len() == names.len()
                        && damaged(names, outs).len() > 0 && e is NoUsableCheckpoint && texts(
                        e->tried@,
                    ) == damaged(names, outs),
            }
        }),
{
    let files = candidates(cfg);
    let ghost names = candidate_names(cfg.name@, cfg.keep as nat);
    let ghost mut outs: Seq<FileRead> = Seq::empty();
    let mut tried: Vec<String> = Vec::new();
    let mut i: usize = 0;
    while i < files.len()
        invariant
            i <= files@.len(),
            names == candidate_names(cfg.name@, cfg.keep as nat),
            texts(files@) == names,
            outs.len() == i,
            forall|f: &String| #[trigger] call_requires(read, (f,)),
            useless(read, names, outs),
            texts(tried@) == damaged(names, outs),
        decreases files@.len() - i,
    {
        let file: &String = &files[i];
        let out: FileRead = read(file);
        assert(was_read(read, names[i as int], out));
        let ghost given = out;
        let ghost before = outs;
        match out {
            FileRead::Missing => {
                proof {
                    outs = outs.push(given);
                    assert(outs.drop_last() =~= before);
                }
            },
            FileRead::Failed(_) => {
                tried.push(file.clone());
                proof {
                    outs = outs.push(given);
                    assert(outs.drop_last() =~= before);
                }
            },
            FileRead::Found(bytes) => match snapshot::from_bytes(bytes.as_slice()) {
                Ok(s) => {
                    return Ok(Some(s));
                },
                Err(_) => {
                    tried.push(file.clone());
                    proof {
                        outs = outs.push(given);
                        assert(outs.drop_last() =~= before);
                    }
                },
            },
        }
        i = i + 1;
    }
    if tried.len() > 0 {
        Err(CheckpointError::NoUsableCheckpoint { tried })
    } else {
        Ok(None)
    }
}

// ---------------------------------------------------------------------------
// What the steps do to a directory.
// ---------------------------------------------------------------------------

/// A directory: the contents of its files. A rename is one atomic step; one of
/// a missing file changes nothing.
pub open spec fn taken(dir: Map<Seq<char>, Seq<u8>>, step: StepView) -> Map<Seq<char>, Seq<u8>> {
    match step {
        StepView::CreateDir => dir,
        StepView::SyncDir => dir,
        StepView::WriteSynced { file, bytes } => dir.insert(file, bytes),
        StepView::Rotate { from, to } => rotation::moved(dir, from, to),
        StepView::Publish { from, to } => rotation::moved(dir, from, to),
    }
}

/// A directory after the first `k` steps.
pub open spec fn after(dir: Map<Seq<char>, Seq<u8>>, steps: Seq<StepView>, k: nat) -> Map<
    Seq<char>,
    Seq<u8>,
>
    decreases k,
{
    if k == 0 {
        dir
    } else {
        taken(after(dir, steps, (k - 1) as nat), steps[k - 1])
    }
}

/// The newest usable checkpoint from the `i`th file of a set on.
pub open spec fn newest(
    dir: Map<Seq<char>, Seq<u8>>,
    name: Seq<char>,
    keep: nat,
    i: nat,
) -> Option<SnapshotView>
    decreases keep + 1 - i,
{
    if i > keep {
        None
    } else if dir.contains_key(rotation::slot(name, i)) && snapshot::bincode_read(dir[rotation::slot(name, i)]) is Some {
        snapshot::bincode_read(dir[rotation::slot(name, i)])
    } else {
        newest(dir, name, keep, i + 1)
    }
}

/// The temp file is none of the set.
proof fn lemma_tmp_is_no_slot(name: Seq<char>, pid: nat, i: nat)
    ensures
        tmp_name(name, pid) != rotation::slot(name, i),
{
    reveal_strlit(".");
    reveal_strlit(".tmp");
    let t = tmp_name(name, pid);
    rotation::lemma_decimal_digits(pid);
    rotation::lemma_decimal_digits(i);
    assert(t.last() == 'p');
}

/// Where a save is after its first `k` steps, once the new bytes are written.
proof fn lemma_save_progress(
    dir: Map<Seq<char>, Seq<u8>>,
    name: Seq<char>,
    keep: nat,
    pid: nat,
    bytes: Seq<u8>,
    j: int,
)
    requires
        0 <= j <= keep,
    ensures
        rotation::rotated(
            dir.insert(tmp_name(name, pid), bytes),
            after(dir, plan(name, keep, pid, bytes), (2 + j) as nat),
            name,
            keep,
            j,
        ),
    decreases j,
{
    let steps = plan(name, keep, pid, bytes);
    let written = dir.insert(tmp_name(name, pid), bytes);
    reveal_with_fuel(after, 3);
    if j > 0 {
        lemma_save_progress(dir, name, keep, pid, bytes, j - 1);
        let now = after(dir, steps, (1 + j) as nat);
        rotation::lemma_rotation_step(written, now, name, keep, j - 1);
    }
}

/// A save that runs to its end: the new snapshot is the current checkpoint,
/// every copy has moved down one slot, the temp file is gone, no file beyond
/// the set was touched, and a load finds the new snapshot.
pub proof fn law_a_save_rotates(
    dir: Map<Seq<char>, Seq<u8>>,
    name: Seq<char>,
    keep: nat,
    pid: nat,
    bytes: Seq<u8>,
)
    ensures
        ({
            let steps = plan(name, keep, pid, bytes);
            let now = after(dir, steps, steps.len());
            &&& now.contains_key(rotation::slot(name, 0)) && now[rotation::slot(name, 0)] == bytes
            &&& forall|i: nat|
                #![trigger rotation::slot(name, i)]
                i < keep && dir.contains_key(rotation::slot(name, i)) ==> now.contains_key(rotation::slot(name, i + 1))
                    && now[rotation::slot(name, i + 1)] == dir[rotation::slot(name, i)]
            &&& !now.contains_key(tmp_name(name, pid))
            &&& forall|f: Seq<char>|
                #![trigger now.contains_key(f)]
                #![trigger now[f]]
                !rotation::is_slot(name, keep, f) && f != tmp_name(name, pid)
                    ==> now.contains_key(f) == dir.contains_key(f) && now[f] == dir[f]
            &&& snapshot::bincode_read(bytes) is Some ==> newest(now, name, keep, 0)
                == snapshot::bincode_read(bytes)
        }),
{
    let steps = plan(name, keep, pid, bytes);
    let tmp = tmp_name(name, pid);
    lemma_save_progress(dir, name, keep, pid, bytes, keep as int);
    let now = after(dir, steps, steps.len());
    reveal_with_fuel(after, 3);
    assert(!rotation::is_slot(name, keep, tmp)) by {
        if rotation::is_slot(name, keep, tmp) {
            lemma_tmp_is_no_slot(
                name,
                pid,
                choose|i: nat| i <= keep && tmp == #[trigger] rotation::slot(name, i),
            );
        }
    }
    lemma_tmp_is_no_slot(name, pid, 0);
    assert forall|i: nat|
        #![trigger rotation::slot(name, i)]
        i < keep && dir.contains_key(rotation::slot(name, i)) implies now.contains_key(rotation::slot(name, i + 1))
        && now[rotation::slot(name, i + 1)] == dir[rotation::slot(name, i)] by {
        lemma_tmp_is_no_slot(name, pid, i);
        lemma_tmp_is_no_slot(name, pid, i + 1);
        if rotation::slot(name, i + 1) == rotation::slot(name, 0) {
            rotation::lemma_slots_differ(name, i + 1, 0);
        }
    }
}

/// What was saved is what is loaded: where the current file is read back as a
/// save wrote it, no other file is gone on to.
pub proof fn law_what_was_saved_is_loaded<R: Fn(&String) -> FileRead>(
    read: R,
    names: Seq<Seq<char>>,
    outs: Seq<FileRead>,
    saved: SnapshotView,
)
    requires
        useless(read, names, outs),
        forall|out: FileRead| #[trigger]
            was_read(read, names[0], out) ==> out is Found && out->Found_0@
                == snapshot::bincode_written(saved),
    ensures
        outs.len() == 0,
{
    if outs.len() > 0 {
        assert(was_read(read, names[0], outs[0]));
    }
}

/// A load finds the newest usable checkpoint of the directory that it reads: it
/// passes over none that is usable, and what it stops at is the newest.
pub proof fn law_a_load_finds_the_newest<R: Fn(&String) -> FileRead>(
    read: R,
    dir: Map<Seq<char>, Seq<u8>>,
    name: Seq<char>,
    keep: nat,
    outs: Seq<FileRead>,
)
    requires
        useless(read, candidate_names(name, keep), outs),
        forall|f: Seq<char>, out: FileRead| #[trigger]
            was_read(read, f, out) ==> if dir.contains_key(f) {
                out is Found && out->Found_0@ == dir[f]
            } else {
                out is Missing
            },
    ensures
        newest(dir, name, keep, 0) == newest(dir, name, keep, outs.len()),
        outs.len() == candidate_names(name, keep).len() ==> newest(dir, name, keep, 0) is None,
        forall|last: FileRead|
            #![trigger last.usable()]
            outs.len() < candidate_names(name, keep).len() && was_read(
                read,
                candidate_names(name, keep)[outs.len() as int],
                last,
            ) && last.usable() is Some ==> newest(dir, name, keep, 0) == last.usable(),
    decreases outs.len(),
{
    let names = candidate_names(name, keep);
    if outs.len() > 0 {
        let front = outs.drop_last();
        let i = (outs.len() - 1) as nat;
        assert(useless(read, names, front)) by {
            assert forall|j: int| 0 <= j < front.len() implies was_read(
                read,
                names[j],
                #[trigger] front[j],
            ) && front[j].usable() is None && !(front[j] is Found && is_written(
                front[j]->Found_0@,
            )) by {
            }
        }
        law_a_load_finds_the_newest(read, dir, name, keep, front);
        assert(was_read(read, names[i as int], outs[i as int]));
    }
}

/// Whatever a half-written temp file holds, it is not mistaken for a
/// checkpoint.
pub proof fn law_a_stray_temp_file_is_ignored(
    dir: Map<Seq<char>, Seq<u8>>,
    name: Seq<char>,
    keep: nat,
    pid: nat,
    torn: Seq<u8>,
    i: nat,
)
    ensures
        newest(dir.insert(tmp_name(name, pid), torn), name, keep, i) == newest(dir, name, keep, i),
    decreases keep + 1 - i,
{
    lemma_tmp_is_no_slot(name, pid, i);
    if i <= keep {
        law_a_stray_temp_file_is_ignored(dir, name, keep, pid, torn, i + 1);
    }
}

/// A crash costs at most the write: with a usable current checkpoint, a load
/// after any number of the steps of a save finds either that checkpoint or the
/// new one.
pub proof fn law_a_crash_costs_at_most_the_write(
    dir: Map<Seq<char>, Seq<u8>>,
    name: Seq<char>,
    keep: nat,
    pid: nat,
    bytes: Seq<u8>,
    k: nat,
)
    requires
        dir.contains_key(rotation::slot(name, 0)),
        snapshot::bincode_read(dir[rotation::slot(name, 0)]) is Some,
        snapshot::bincode_read(bytes) is Some,
        k <= plan(name, keep, pid, bytes).len(),
    ensures
        ({
            let found = newest(after(dir, plan(name, keep, pid, bytes), k), name, keep, 0);
            ||| found == snapshot::bincode_read(dir[rotation::slot(name, 0)])
            ||| found == snapshot::bincode_read(bytes)
        }),
        k == plan(name, keep, pid, bytes).len() ==> newest(
            after(dir, plan(name, keep, pid, bytes), k),
            name,
            keep,
            0,
        ) == snapshot::bincode_read(bytes),
{
    let tmp = tmp_name(name, pid);
    reveal_with_fuel(after, 3);
    lemma_tmp_is_no_slot(name, pid, 0);
    if 2 <= k < 2 + keep {
        lemma_save_progress(dir, name, keep, pid, bytes, k - 2);
    } else if k == 2 + keep {
        lemma_save_progress(dir, name, keep, pid, bytes, keep as int);
        reveal_with_fuel(newest, 2);
    } else if k > 2 + keep {
        law_a_save_rotates(dir, name, keep, pid, bytes);
    }
}

/// A damaged newest file costs one interval, not the world: the newest copy
/// that is whole is found past any number of files that are missing or
/// damaged.
pub proof fn law_damaged_files_are_passed_over(
    dir: Map<Seq<char>, Seq<u8>>,
    name: Seq<char>,
    keep: nat,
    k: nat,
    from: nat,
)
    requires
        from <= k <= keep,
        dir.contains_key(rotation::slot(name, k)),
        snapshot::bincode_read(dir[rotation::slot(name, k)]) is Some,
        forall|i: nat|
            #![trigger rotation::slot(name, i)]
            i < k ==> !dir.contains_key(rotation::slot(name, i)) || snapshot::bincode_read(
                dir[rotation::slot(name, i)],
            ) is None,
    ensures
        newest(dir, name, keep, from) == snapshot::bincode_read(dir[rotation::slot(name, k)]),
    decreases k - from,
{
    if from < k {
        law_damaged_files_are_passed_over(dir, name, keep, k, from + 1);
    }
}

proof fn lemma_damaged_adds(names: Seq<Seq<char>>, outs: Seq<FileRead>, i: int)
    requires
        0 <= i < outs.len() <= names.len(),
    ensures
        !(outs[i] is Missing) ==> damaged(names, outs).contains(names[i]),
        forall|f: Seq<char>| #[trigger]
            damaged(names, outs).contains(f) ==> exists|j: int|
                0 <= j < outs.len() && names[j] == f && !(#[trigger] outs[j] is Missing),
    decreases outs.len(),
{
    let front = outs.drop_last();
    let n = outs.len() - 1;
    let early = damaged(names, front);
    let all = damaged(names, outs);
    if i < n {
        lemma_damaged_adds(names, front, i);
        if !(outs[i] is Missing) {
            let k = choose|k: int| 0 <= k < early.len() && early[k] == names[i];
            assert(all[k] == names[i]);
        }
    } else if !(outs[i] is Missing) {
        assert(all[all.len() - 1] == names[i]);
    }
    assert forall|f: Seq<char>| #[trigger] all.contains(f) implies exists|j: int|
        0 <= j < outs.len() && names[j] == f && !(#[trigger] outs[j] is Missing) by {
        let k = choose|k: int| 0 <= k < all.len() && all[k] == f;
        if !(outs[n] is Missing) && k == all.len() - 1 {
            assert(names[n] == f);
        } else {
            assert(early[k] == f);
            assert(early.contains(f));
            if n > 0 {
                lemma_damaged_adds(names, front, 0);
                let j = choose|j: int|
                    0 <= j < front.len() && names[j] == f && !(#[trigger] front[j] is Missing);
                assert(outs[j] == front[j]);
            }
        }
    }
}

/// What a load of a directory answers. A snapshot is that of the newest file
/// that holds one. Nothing is answered only where there is no file of the set
/// at all; and where there are files and none of them holds a snapshot, the
/// error names each of them that is there, and none that is not.
pub proof fn law_what_a_load_answers<R: Fn(&String) -> FileRead>(
    cfg: &CheckpointConfig,
    read: R,
    dir: Map<Seq<char>, Seq<u8>>,
    res: Result<Option<Snapshot>, CheckpointError>,
    i: nat,
)
    requires
        cfg.keep < usize::MAX,
        call_ensures(load::<R>, (cfg, read), res),
        forall|f: Seq<char>, out: FileRead| #[trigger]
            was_read(read, f, out) ==> if dir.contains_key(f) {
                out is Found && out->Found_0@ == dir[f]
            } else {
                out is Missing
            },
        i <= cfg.keep,
    ensures
        res is Ok && res->Ok_0 is Some ==> newest(dir, cfg.name@, cfg.keep as nat, 0) == Some(
            res->Ok_0->0@,
        ),
        res is Ok && res->Ok_0 is None ==> !dir.contains_key(rotation::slot(cfg.name@, i)),
        res is Err ==> res->Err_0 is NoUsableCheckpoint && newest(
            dir,
            cfg.name@,
            cfg.keep as nat,
            0,
        ) is None && (dir.contains_key(rotation::slot(cfg.name@, i)) <==> texts(
            res->Err_0->tried@,
        ).contains(rotation::slot(cfg.name@, i))) && res->Err_0->tried@.len() > 0,
{
    let name = cfg.name@;
    let keep = cfg.keep as nat;
    let names = candidate_names(name, keep);
    let slot = rotation::slot(name, i);
    assert(names[i as int] == slot);
    match res {
        Ok(Some(s)) => {
            let (outs, last) = choose|outs: Seq<FileRead>, last: FileRead|
                #[trigger] useless(read, names, outs) && outs.len() < names.len()
                    && #[trigger] was_read(read, names[outs.len() as int], last) && last.usable()
                    == Some(s@);
            law_a_load_finds_the_newest(read, dir, name, keep, outs);
            assert(last.usable() is Some);
        },
        Ok(None) => {
            let outs = choose|outs: Seq<FileRead>|
                #[trigger] useless(read, names, outs) && outs.len() == names.len() && damaged(
                    names,
                    outs,
                ).len() == 0;
            lemma_damaged_adds(names, outs, i as int);
            assert(was_read(read, names[i as int], outs[i as int]));
        },
        Err(e) => {
            let outs = choose|outs: Seq<FileRead>|
                #[trigger] useless(read, names, outs) && outs.len() == names.len() && damaged(
                    names,
                    outs,
                ).len() > 0 && texts(e->tried@) == damaged(names, outs);
            law_a_load_finds_the_newest(read, dir, name, keep, outs);
            lemma_damaged_adds(names, outs, i as int);
            assert(was_read(read, names[i as int], outs[i as int]));
            assert(texts(e->tried@).len() == e->tried@.len());
            if damaged(names, outs).contains(slot) {
                let j = choose|j: int|
                    0 <= j < outs.len() && names[j] == slot && !(#[trigger] outs[j] is Missing);
                assert(was_read(read, names[j], outs[j]));
            }
        },
    }
}

/// A save begins with the directory and the synced temp file and ends with its
/// publication under the current name; the rotation stands between them. No
/// step writes to a file of the set.
pub proof fn law_a_save_publishes_last(
    cfg: &CheckpointConfig,
    bytes: Vec<u8>,
    pid: u32,
    steps: Vec<Step>,
    i: int,
)
    requires
        call_ensures(save_steps, (cfg, bytes, pid), steps),
    ensures
        steps@.len() == cfg.keep + 4,
        steps@[0] is CreateDir,
        steps@[1] is WriteSynced && steps@[1]->bytes@ == bytes@ && steps@[1]->file@ == tmp_name(
            cfg.name@,
            pid as nat,
        ),
        2 <= i < cfg.keep + 2 ==> steps@[i] is Rotate,
        steps@[cfg.keep + 2] is Publish && steps@[cfg.keep + 2]->Publish_from@ == tmp_name(
            cfg.name@,
            pid as nat,
        ) && steps@[cfg.keep + 2]->Publish_to@ == cfg.name@,
        steps@[cfg.keep + 3] is SyncDir,
{
    let p = plan(cfg.name@, cfg.keep as nat, pid as nat, bytes@);
    let v = step_views(steps@);
    assert(v.len() == steps@.len());
    assert(v[0] == steps@[0]@ && v[0] == p[0]);
    assert(v[1] == steps@[1]@ && v[1] == p[1]);
    assert(v[cfg.keep + 2] == steps@[cfg.keep + 2]@ && v[cfg.keep + 2] == p[cfg.keep + 2]);
    assert(v[cfg.keep + 3] == steps@[cfg.keep + 3]@ && v[cfg.keep + 3] == p[cfg.keep + 3]);
    if 2 <= i < cfg.keep + 2 {
        assert(v[i] == steps@[i]@ && v[i] == p[i]);
        assert(p[i] == rotate_steps(cfg.name@, cfg.keep as nat)[i - 2]);
    }
}

/// Two processes never write to the same temp file.
pub proof fn law_temp_files_are_apart(name: Seq<char>, a: nat, b: nat)
    requires
        a != b,
    ensures
        tmp_name(name, a) != tmp_name(name, b),
{
    let (s, t) = (tmp_name(name, a), tmp_name(name, b));
    reveal_strlit(".");
    reveal_strlit(".tmp");
    if s == t {
        let n = name.len() as int;
        let m = s.len() - 4;
        assert(s.subrange(n + 1, m) =~= text::decimal(a));
        assert(t.subrange(n + 1, m) =~= text::decimal(b));
        rotation::lemma_decimal_injective(a, b);
    }
}

/// A failed rotation, or a directory that cannot be synced, does not end a
/// save; any other failure does, with the path it is about and its words.
pub proof fn law_only_losing_the_write_ends_a_save(
    cfg: &CheckpointConfig,
    step: &Step,
    failure: String,
    r: Option<CheckpointError>,
)
    requires
        call_ensures(after_step, (cfg, step, failure), r),
    ensures
        *step is Rotate || *step is SyncDir <==> r is None,
        r is Some ==> r->0 is Io && r->0->source@ == failure@,
        *step is CreateDir ==> r->0->path@ == cfg.dir@,
        *step is WriteSynced ==> r->0->path@ == step->file@,
        *step is Publish ==> r->0->path@ == step->Publish_from@,
{
}

/// The files of a set: the current one first, then its copies, newest first, as
/// many as are kept.
pub proof fn law_the_current_file_is_tried_first(
    cfg: &CheckpointConfig,
    files: Vec<String>,
    current: String,
    i: int,
)
    requires
        cfg.keep < usize::MAX,
        call_ensures(candidates, (cfg,), files),
        call_ensures(CheckpointConfig::current, (cfg,), current),
    ensures
        files@.len() == cfg.keep + 1,
        current@ == cfg.name@,
        files@[0]@ == cfg.name@,
        1 <= i <= cfg.keep ==> files@[i]@ == cfg.name@ + "."@ + text::decimal(i as nat),
{
    let v = texts(files@);
    let c = candidate_names(cfg.name@, cfg.keep as nat);
    assert(v.len() == files@.len());
    assert(v[0] == files@[0]@ && v[0] == c[0]);
    if 1 <= i <= cfg.keep {
        assert(v[i] == files@[i]@ && v[i] == c[i]);
    }
}

/// A set is named and kept as it is told, and otherwise as a world is by
/// default; changing one setting leaves the others.
pub proof fn law_settings_are_kept_apart(
    dir: &str,
    fresh: CheckpointConfig,
    set: CheckpointConfig,
    name: &str,
    named: CheckpointConfig,
    keep: usize,
    kept: CheckpointConfig,
)
    requires
        call_ensures(CheckpointConfig::new, (dir,), fresh),
        call_ensures(CheckpointConfig::with_name, (set, name), named),
        call_ensures(CheckpointConfig::with_keep, (set, keep), kept),
    ensures
        fresh.dir@ == dir@ && fresh.name@ == "world.ckpt"@ && fresh.keep == 3,
        named.name@ == name@ && named.dir@ == set.dir@ && named.keep == set.keep,
        kept.keep == keep && kept.dir@ == set.dir@ && kept.name@ == set.name@,
{
}

/// A list of names has a comma and a blank between them, and none elsewhere.
pub proof fn law_names_are_listed_in_order(names: Seq<Seq<char>>, name: Seq<char>)
    ensures
        listed(Seq::empty()) == Seq::<char>::empty(),
        names.len() == 0 ==> listed(names.push(name)) == name,
        names.len() > 0 ==> listed(names.push(name)) == listed(names) + ", "@ + name,
{
    assert(names.push(name).drop_last() =~= names);
}

/// What saving a snapshot asks for: the steps that publish its bytes.
pub proof fn law_what_saving_asks_for(
    cfg: &CheckpointConfig,
    s: &Snapshot,
    pid: u32,
    res: Result<Vec<Step>, CheckpointError>,
    n: usize,
    copy: String,
)
    requires
        call_ensures(save, (cfg, s, pid), res),
        call_ensures(CheckpointConfig::nth, (cfg, n), copy),
    ensures
        res is Ok,
        res->Ok_0@.len() == cfg.keep + 4,
        res->Ok_0@[1] is WriteSynced && res->Ok_0@[1]->bytes@ == snapshot::bincode_written(s@),
        res->Ok_0@[cfg.keep + 2] is Publish && res->Ok_0@[cfg.keep + 2]->Publish_to@ == cfg.name@
            && res->Ok_0@[cfg.keep + 2]->Publish_from@ == res->Ok_0@[1]->file@,
        copy@ == cfg.name@ + "."@ + text::decimal(n as nat),
{
    let p = plan(cfg.name@, cfg.keep as nat, pid as nat, snapshot::bincode_written(s@));
    let steps = res->Ok_0@;
    let v = step_views(steps);
    assert(v.len() == steps.len());
    assert(v[1] == steps[1]@ && v[1] == p[1]);
    assert(v[cfg.keep + 2] == steps[cfg.keep + 2]@ && v[cfg.keep + 2] == p[cfg.keep + 2]);
}

/// The sentences of the errors name the files that they are about.
pub proof fn law_errors_name_their_files(e: &CheckpointError, s: String)
    requires
        call_ensures(CheckpointError::message, (e,), s),
    ensures
        *e is Io ==> s@ == e->path@ + ": "@ + e->source@,
        *e is NoUsableCheckpoint ==> s@ == "no usable checkpoint among "@ + text::decimal(
            e->tried@.len(),
        ) + " candidate(s): "@ + listed(texts(e->tried@)),
        *e is Snapshot ==> s@ == e->Snapshot_0@.text(),
{
}

/// A file that is there and cannot be used is named, whether it could not be
/// read or does not hold a snapshot; one that is missing is not.
pub proof fn law_unusable_files_are_named(names: Seq<Seq<char>>, outs: Seq<FileRead>, i: int)
    requires
        0 <= i < outs.len() <= names.len(),
        forall|a: int, b: int| 0 <= a < b < names.len() ==> names[a] != names[b],
    ensures
        damaged(names, outs).contains(names[i]) <==> outs[i] is Failed || outs[i] is Found,
        outs[i] is Failed || outs[i] is Missing ==> outs[i].usable() is None,
        outs[i] is Found ==> outs[i].usable() == snapshot::bincode_read(outs[i]->Found_0@),
{
    lemma_damaged_adds(names, outs, i);
    if damaged(names, outs).contains(names[i]) {
        let j = choose|j: int|
            0 <= j < outs.len() && names[j] == names[i] && !(#[trigger] outs[j] is Missing);
        assert(j == i);
    }
}

} // verus!
