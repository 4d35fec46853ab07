use dagr_core::context::{PipelineId, RunId};
use dagr_core::error::TaskErrorClass;
use dagr_core::handle::NodeId;
use dagr_core::scratch::{
    encode_key, node_segment, path_segment, read_outcome, remove_outcome, temporary_name, write_outcome, ScratchOp,
    ScratchStore, StoreReply, WriteAction, WritePlan, SCRATCH_DIR_NAME,
};
use std::cell::RefCell;
use std::collections::BTreeMap;

#[test]
fn encode_key_is_distinct_and_safe() {
    assert_eq!(encode_key(b""), "00");
    assert_eq!(encode_key(b"A"), "41");
    assert_ne!(encode_key(b"../escape"), encode_key(b"escape"));
    let enc = encode_key(b"../../etc/passwd");
    assert!(!enc.contains('/') && !enc.contains('.'));
}

#[test]
fn path_segment_neutralizes_traversal() {
    assert_eq!(path_segment(""), "_");
    assert_eq!(path_segment("."), "_");
    assert_ne!(path_segment(".."), "..");
    assert!(!path_segment("..").starts_with('.'));
    assert_eq!(path_segment("a/b"), "a_b");
    assert_eq!(path_segment(".hidden"), "_hidden");
    assert_eq!(path_segment("T0.6"), "T0.6");
    assert_eq!(path_segment("ok-run_1"), "ok-run_1");
}

#[test]
fn distinct_nodes_get_distinct_segments() {
    let a = node_segment(NodeId::from_name("alpha"));
    let b = node_segment(NodeId::from_name("beta"));
    assert_ne!(a, b);
    assert_eq!(a, node_segment(NodeId::from_name("alpha")));
}

fn store(run: &str, node: &str) -> ScratchStore {
    ScratchStore::for_node("/runs", &PipelineId::new("etl"), &RunId::new(run), NodeId::from_name(node))
}

#[test]
fn the_directory_is_below_the_run() {
    let s = store("run/1", "extract");
    let dir = s.namespace_dir().unwrap();
    assert_eq!(dir.base, "/runs");
    assert_eq!(
        dir.names,
        vec![
            "etl".to_string(),
            "run_1".to_string(),
            SCRATCH_DIR_NAME.to_string(),
            node_segment(NodeId::from_name("extract")),
        ]
    );
    assert_eq!(dir.names[3].len(), 16);
    assert!(ScratchStore::unwired().namespace_dir().is_none());
}

#[test]
fn nodes_and_runs_do_not_share_a_directory() {
    let a = store("run-1", "extract");
    let b = store("run-1", "load");
    let c = store("run-2", "extract");
    assert_ne!(a.namespace_dir().unwrap().names, b.namespace_dir().unwrap().names);
    assert_ne!(a.namespace_dir().unwrap().names, c.namespace_dir().unwrap().names);
}

#[test]
fn keys_have_names_of_their_own() {
    assert_eq!(encode_key(&[0x00]), "0");
    assert_eq!(encode_key(&[0x00, 0x00]), "0000");
    assert_ne!(encode_key(&[0x00]), encode_key(b""));
    assert_eq!(encode_key(&[0x0f, 0xa0]), "0fa0");
    assert_ne!(encode_key(b"ab"), encode_key(b"ba"));
    assert_ne!(encode_key(&[0x01]), encode_key(&[0x00, 0x01]));
}

#[test]
fn temporary_names_are_no_keys() {
    assert_eq!(temporary_name("41", 7, 3), ".41.tmp.7.3");
    assert_ne!(temporary_name("41", 7, 3), temporary_name("41", 7, 4));
    assert!(temporary_name("41", 7, 3).starts_with('.'));
}

#[test]
fn replies_are_read() {
    assert_eq!(read_outcome(StoreReply::Done(vec![1, 2])).unwrap(), Some(vec![1, 2]));
    assert_eq!(read_outcome(StoreReply::NotFound).unwrap(), None);
    let e = read_outcome(StoreReply::Failed("disk on fire".to_string())).unwrap_err();
    assert_eq!(e.render(), "scratch read failed: disk on fire");
    assert!(remove_outcome(StoreReply::Done(())).is_ok());
    assert!(remove_outcome(StoreReply::NotFound).is_ok());
    assert_eq!(
        remove_outcome(StoreReply::Failed("busy".to_string())).unwrap_err().render(),
        "scratch write failed: busy"
    );
    assert!(write_outcome(Ok(())).is_ok());
    assert!(write_outcome(Err("full".to_string())).is_err());
}

#[test]
fn a_scratch_failure_is_retried() {
    let e = write_outcome(Err("disk full".to_string())).unwrap_err().into_task_error();
    assert_eq!(e.class(), TaskErrorClass::Retryable);
    assert_eq!(e.message(), "durable scratch write failed");
    assert_eq!(e.source(), Some("disk full"));
    assert_eq!(ScratchOp::Read.label(), "read");
}

/// A directory that is kept in memory, and may be told to fail.
struct Disk {
    files: RefCell<BTreeMap<String, Vec<u8>>>,
    tried: RefCell<Vec<WriteAction>>,
    fails: Option<WriteAction>,
}

impl Disk {
    fn new() -> Self {
        Disk { files: RefCell::new(BTreeMap::new()), tried: RefCell::new(Vec::new()), fails: None }
    }

    fn step(&self, action: WriteAction, plan: &WritePlan, value: &[u8]) -> Result<(), String> {
        self.tried.borrow_mut().push(action);
        if self.fails == Some(action) {
            return Err("refused".to_string());
        }
        let mut files = self.files.borrow_mut();
        match action {
            WriteAction::CreateTemporary => {
                files.insert(plan.temporary.clone(), Vec::new());
            }
            WriteAction::WriteBytes => {
                files.insert(plan.temporary.clone(), value.to_vec());
            }
            WriteAction::Rename => {
                let bytes = files.remove(&plan.temporary).unwrap();
                files.insert(plan.target.clone(), bytes);
            }
            WriteAction::RemoveTemporary => {
                files.remove(&plan.temporary);
            }
            WriteAction::MakeDirectory | WriteAction::SyncFile | WriteAction::SyncDirectory => {}
        }
        Ok(())
    }

    fn put(&self, s: &ScratchStore, key: &[u8], value: &[u8], number: u64) -> Result<(), String> {
        s.put(key, value, 1, number, |action, plan, bytes| self.step(action, plan, bytes)).map_err(|e| e.render())
    }

    fn get(&self, s: &ScratchStore, key: &[u8]) -> Option<Vec<u8>> {
        s.get(key, |path| match self.files.borrow().get(path.names.last().unwrap()) {
            Some(bytes) => StoreReply::Done(bytes.clone()),
            None => StoreReply::NotFound,
        })
        .unwrap()
    }
}

#[test]
fn a_read_gives_back_what_was_written() {
    let s = store("run-1", "extract");
    let disk = Disk::new();
    assert_eq!(disk.get(&s, b"cursor"), None);
    disk.put(&s, b"cursor", &[0, 255, 10], 0).unwrap();
    disk.put(&s, b"other", b"x", 1).unwrap();
    assert_eq!(disk.get(&s, b"cursor"), Some(vec![0, 255, 10]));
    disk.put(&s, b"cursor", b"", 2).unwrap();
    assert_eq!(disk.get(&s, b"cursor"), Some(Vec::new()));
    assert_eq!(disk.get(&s, b"other"), Some(b"x".to_vec()));
    assert_eq!(disk.files.borrow().len(), 2);
}

#[test]
fn steps_come_in_order() {
    let s = store("run-1", "extract");
    let disk = Disk::new();
    disk.put(&s, b"k", b"v", 0).unwrap();
    assert_eq!(
        *disk.tried.borrow(),
        vec![
            WriteAction::MakeDirectory,
            WriteAction::CreateTemporary,
            WriteAction::WriteBytes,
            WriteAction::SyncFile,
            WriteAction::Rename,
            WriteAction::SyncDirectory,
        ]
    );
}

#[test]
fn a_failed_write_keeps_the_old_value_and_leaves_no_debris() {
    let s = store("run-1", "extract");
    for fails in [
        WriteAction::CreateTemporary,
        WriteAction::WriteBytes,
        WriteAction::SyncFile,
        WriteAction::Rename,
    ] {
        let mut disk = Disk::new();
        disk.put(&s, b"k", b"old", 0).unwrap();
        disk.fails = Some(fails);
        assert_eq!(disk.put(&s, b"k", b"new", 1), Err("scratch write failed: refused".to_string()));
        assert_eq!(*disk.tried.borrow().last().unwrap(), WriteAction::RemoveTemporary);
        assert_eq!(disk.get(&s, b"k"), Some(b"old".to_vec()));
        assert_eq!(disk.files.borrow().len(), 1);
    }
    let mut disk = Disk::new();
    disk.fails = Some(WriteAction::MakeDirectory);
    assert!(disk.put(&s, b"k", b"new", 1).is_err());
    assert_eq!(disk.tried.borrow().len(), 1);
}

#[test]
fn a_directory_that_cannot_be_synced_does_not_undo_the_write() {
    let s = store("run-1", "extract");
    let mut disk = Disk::new();
    disk.fails = Some(WriteAction::SyncDirectory);
    assert!(disk.put(&s, b"k", b"new", 1).is_ok());
    assert_eq!(disk.get(&s, b"k"), Some(b"new".to_vec()));
}

#[test]
fn removal_takes_away_one_key_or_all() {
    let s = store("run-1", "extract");
    let disk = Disk::new();
    disk.put(&s, b"a", b"1", 0).unwrap();
    disk.put(&s, b"b", b"2", 1).unwrap();
    s.remove(b"a", |path| match disk.files.borrow_mut().remove(path.names.last().unwrap()) {
        Some(_) => StoreReply::Done(()),
        None => StoreReply::NotFound,
    })
    .unwrap();
    assert_eq!(disk.get(&s, b"a"), None);
    assert_eq!(disk.get(&s, b"b"), Some(b"2".to_vec()));
    s.remove(b"a", |_| StoreReply::NotFound).unwrap();
    s.remove_on_success(|path| {
        assert_eq!(path.names.len(), 4);
        disk.files.borrow_mut().clear();
        StoreReply::Done(())
    })
    .unwrap();
    assert_eq!(disk.get(&s, b"b"), None);
    assert!(s.remove(b"a", |_| StoreReply::Failed("locked".to_string())).is_err());
}

#[test]
fn no_store_reads_and_writes_nothing() {
    let s = ScratchStore::unwired();
    let text = "scratch store has no run-store base (context built with no run store)";
    assert_eq!(s.get(b"k", |_| panic!("not reached")).unwrap(), None);
    let e = s.put(b"k", b"v", 1, 1, |_, _, _| panic!("not reached")).unwrap_err();
    assert_eq!(e.render(), format!("scratch write failed: {}", text));
    assert!(s.remove(b"k", |_| panic!("not reached")).is_ok());
    assert!(s.remove_on_success(|_| panic!("not reached")).is_ok());
}
