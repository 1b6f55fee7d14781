use std::cell::RefCell;
use std::collections::HashMap;
use void_engine::persist::checkpoint::{
    after_step, candidates, load, save, CheckpointConfig, CheckpointError, FileRead, Step,
};
use void_engine::persist::snapshot::{from_bytes, Column, Slots, Snapshot, FORMAT_VERSION};

/// A checkpoint directory in memory.
struct Disk {
    cfg: CheckpointConfig,
    made: bool,
    files: HashMap<String, Vec<u8>>,
}

impl Disk {
    fn new() -> Self {
        Disk { cfg: CheckpointConfig::new("ckpt"), made: false, files: HashMap::new() }
    }

    fn with_keep(keep: usize) -> Self {
        Disk { cfg: CheckpointConfig::new("ckpt").with_keep(keep), ..Disk::new() }
    }

    fn take_step(&mut self, step: &Step) -> Result<(), String> {
        let missing = || "no such file".to_string();
        match step {
            Step::CreateDir => self.made = true,
            Step::WriteSynced { file, bytes } => {
                self.files.insert(file.clone(), bytes.clone());
            }
            Step::Rotate { from, to } | Step::Publish { from, to } => {
                let bytes = self.files.remove(from).ok_or_else(missing)?;
                self.files.insert(to.clone(), bytes);
            }
            Step::SyncDir => return Err("directories do not sync here".to_string()),
        }
        Ok(())
    }

    fn save_until(&mut self, tick: u64, stop_before: usize) {
        for step in save(&self.cfg, &snapshot_with(tick), 4242).unwrap().iter().take(stop_before) {
            if let Err(why) = self.take_step(step) {
                assert_eq!(after_step(&self.cfg, step, why), None);
            }
        }
    }

    fn save(&mut self, tick: u64) {
        self.save_until(tick, usize::MAX);
    }

    fn load(&self) -> Result<Option<Snapshot>, CheckpointError> {
        load(&self.cfg, |f: &String| match self.files.get(f) {
            Some(bytes) => FileRead::Found(bytes.clone()),
            None => FileRead::Missing,
        })
    }

    fn loaded_tick(&self) -> u64 {
        self.load().unwrap().expect("a checkpoint is there").tick
    }
}

fn snapshot_with(tick: u64) -> Snapshot {
    Snapshot {
        format_version: FORMAT_VERSION,
        tick,
        rng: vec![("loot".to_string(), 3, 5)],
        slots: Slots { generations: vec![0], alive: vec![true], free_list: vec![] },
        columns: vec![Column {
            name: "transform2d".to_string(),
            version: 1,
            bytes: vec![1, 0, tick as u8],
        }],
    }
}

#[test]
fn save_then_load_round_trips() {
    let mut disk = Disk::new();
    disk.save(7);
    let loaded = disk.load().unwrap().expect("a checkpoint was just written");
    assert_eq!(loaded.tick, 7);
    assert_eq!(loaded, snapshot_with(7));
}

#[test]
fn loading_an_empty_directory_yields_none() {
    assert!(Disk::new().load().unwrap().is_none());
}

#[test]
fn saving_creates_the_directory() {
    let mut disk = Disk::new();
    disk.save(1);
    assert!(disk.made);
    assert!(disk.files.contains_key(&disk.cfg.current()));
}

#[test]
fn successive_saves_rotate() {
    let mut disk = Disk::with_keep(3);
    for tick in 1..=4 {
        disk.save(tick);
    }
    assert_eq!(disk.loaded_tick(), 4, "current must be newest");
    for (slot, want) in [(1, 3), (2, 2), (3, 1)] {
        let bytes = disk.files.get(&disk.cfg.nth(slot)).expect("rotated copy missing");
        assert_eq!(from_bytes(bytes).unwrap().tick, want, "slot .{slot}");
    }
}

#[test]
fn retention_drops_the_oldest() {
    let mut disk = Disk::with_keep(2);
    for tick in 1..=5 {
        disk.save(tick);
    }
    assert!(!disk.files.contains_key(&disk.cfg.nth(3)), "keep=2 must not retain a third copy");
}

#[test]
fn a_corrupt_current_falls_back_to_the_predecessor() {
    let mut disk = Disk::new();
    disk.save(1);
    disk.save(2);
    disk.files.insert(disk.cfg.current(), b"\x00\x01\x02 not a snapshot".to_vec());
    assert_eq!(disk.loaded_tick(), 1, "should have loaded the predecessor");
}

#[test]
fn an_empty_current_falls_back() {
    let mut disk = Disk::new();
    disk.save(9);
    disk.save(10);
    disk.files.insert(disk.cfg.current(), b"".to_vec());
    assert_eq!(disk.loaded_tick(), 9);
}

#[test]
fn all_corrupt_is_an_error_not_a_fresh_start() {
    let mut disk = Disk::with_keep(1);
    disk.save(1);
    disk.save(2);
    disk.files.insert(disk.cfg.current(), b"junk".to_vec());
    disk.files.insert(disk.cfg.nth(1), b"junk".to_vec());
    match disk.load() {
        Err(CheckpointError::NoUsableCheckpoint { tried }) => {
            assert_eq!(tried.len(), 2, "both candidates should be reported");
        }
        Err(e) => panic!("expected NoUsableCheckpoint, got error: {}", e.message()),
        Ok(Some(s)) => panic!("expected failure, but a snapshot at tick {} loaded", s.tick),
        Ok(None) => panic!("expected failure, but the set looked empty"),
    }
}

#[test]
fn a_stray_temp_file_is_ignored() {
    let mut disk = Disk::new();
    disk.save(3);
    disk.files.insert(format!("{}.99999.tmp", disk.cfg.name), b"partial".to_vec());
    assert_eq!(disk.loaded_tick(), 3);
}

#[test]
fn clear_removes_the_whole_set() {
    let mut disk = Disk::new();
    for tick in 1..=3 {
        disk.save(tick);
    }
    for file in candidates(&disk.cfg) {
        disk.files.remove(&file);
    }
    assert!(disk.load().unwrap().is_none());
    assert!(disk.files.is_empty());
}

#[test]
fn keep_zero_retains_only_the_current_file() {
    let mut disk = Disk::with_keep(0);
    disk.save(1);
    disk.save(2);
    assert_eq!(disk.loaded_tick(), 2);
    assert!(!disk.files.contains_key(&disk.cfg.nth(1)));
}

#[test]
fn io_errors_carry_their_path() {
    let cfg = CheckpointConfig::new("some");
    let step = Step::WriteSynced { file: "some/where.ckpt".to_string(), bytes: vec![] };
    let e = after_step(&cfg, &step, "nope".to_string()).expect("a failed write ends the save");
    assert!(e.message().contains("some/where.ckpt"), "got {}", e.message());
}

#[test]
fn a_crash_at_any_step_leaves_a_checkpoint_to_load() {
    for stop_before in 0..=7 {
        let mut disk = Disk::with_keep(2);
        disk.save(1);
        disk.save(2);
        disk.save_until(3, stop_before);
        let tick = disk.loaded_tick();
        assert!(tick == 2 || tick == 3, "a crash before step {stop_before} lost tick 2");
    }
}

#[test]
fn an_unreadable_file_is_reported() {
    let cfg = CheckpointConfig::new("d").with_keep(0);
    let asked = RefCell::new(Vec::new());
    let res = load(&cfg, |f: &String| {
        asked.borrow_mut().push(f.clone());
        FileRead::Failed("denied".to_string())
    });
    assert_eq!(*asked.borrow(), vec![cfg.current()]);
    assert_eq!(res, Err(CheckpointError::NoUsableCheckpoint { tried: vec![cfg.current()] }));
}

#[test]
fn only_the_best_effort_steps_may_fail() {
    let cfg = CheckpointConfig::new("d");
    let why = || "why".to_string();
    let (from, to) = ("a".to_string(), "b".to_string());
    let io = |path: &str| Some(CheckpointError::Io { path: path.to_string(), source: why() });
    assert_eq!(after_step(&cfg, &Step::CreateDir, why()), io("d"));
    assert_eq!(
        after_step(&cfg, &Step::Rotate { from: from.clone(), to: to.clone() }, why()),
        None
    );
    assert_eq!(after_step(&cfg, &Step::SyncDir, why()), None);
    assert!(after_step(&cfg, &Step::Publish { from, to }, why()).is_some());
}
