// A store in front of which faults are injected.

use dfs::strmap::StrMap;
use std::cell::{Cell, RefCell};
use std::rc::Rc;

#[derive(Debug, Clone, PartialEq, Eq)]
enum OpResult {
    ReadOk(Option<i64>),
    WriteOk,
    Error(String),
}

#[derive(Clone)]
struct History {
    operations: Rc<RefCell<Vec<OpResult>>>,
}

impl History {
    fn new() -> Self {
        Self { operations: Rc::new(RefCell::new(Vec::new())) }
    }

    fn record(&self, op: OpResult) {
        self.operations.borrow_mut().push(op);
    }

    fn get_operations(&self) -> Vec<OpResult> {
        self.operations.borrow().clone()
    }
}

#[derive(Clone)]
struct FaultInjector {
    partitioned: Rc<Cell<bool>>,
    crashed: Rc<Cell<bool>>,
}

impl FaultInjector {
    fn new() -> Self {
        Self { partitioned: Rc::new(Cell::new(false)), crashed: Rc::new(Cell::new(false)) }
    }

    fn partition(&self) {
        self.partitioned.set(true);
    }

    fn heal(&self) {
        self.partitioned.set(false);
    }

    fn crash(&self) {
        self.crashed.set(true);
    }

    fn recover(&self) {
        self.crashed.set(false);
    }

    fn check(&self) -> Result<(), String> {
        if self.crashed.get() {
            return Err("Node crashed".to_string());
        }
        if self.partitioned.get() {
            return Err("Network partition".to_string());
        }
        Ok(())
    }
}

struct FaultAwareStore {
    data: RefCell<StrMap<i64>>,
    history: History,
    fault: FaultInjector,
}

impl FaultAwareStore {
    fn new(history: History, fault: FaultInjector) -> Self {
        Self { data: RefCell::new(StrMap::new()), history, fault }
    }

    fn write(&self, _thread_id: usize, key: &str, value: i64) -> OpResult {
        let result = match self.fault.check() {
            Err(e) => OpResult::Error(e),
            Ok(()) => {
                self.data.borrow_mut().insert(key.to_string(), value);
                OpResult::WriteOk
            }
        };
        self.history.record(result.clone());
        result
    }

    fn read(&self, _thread_id: usize, key: &str) -> OpResult {
        let result = match self.fault.check() {
            Err(e) => OpResult::Error(e.to_lowercase()),
            Ok(()) => OpResult::ReadOk(self.get_raw(key)),
        };
        self.history.record(result.clone());
        result
    }

    fn get_raw(&self, key: &str) -> Option<i64> {
        self.data.borrow().get(key).copied()
    }
}

/// Partition blocks operations, healing restores them
#[test]
fn test_fault_injection_partition() {
    let history = History::new();
    let fault = FaultInjector::new();
    let store = FaultAwareStore::new(history.clone(), fault.clone());

    let r1 = store.write(0, "key1", 42);
    assert_eq!(r1, OpResult::WriteOk, "Write should succeed without partition");

    let r2 = store.read(0, "key1");
    assert_eq!(r2, OpResult::ReadOk(Some(42)), "Read should return written value");

    fault.partition();

    let r3 = store.write(0, "key1", 99);
    assert!(
        matches!(r3, OpResult::Error(ref e) if e.contains("partition")),
        "Write during partition should fail: {:?}",
        r3
    );

    let r4 = store.read(0, "key1");
    assert!(
        matches!(r4, OpResult::Error(ref e) if e.contains("partition")),
        "Read during partition should fail: {:?}",
        r4
    );

    fault.heal();

    let r5 = store.write(0, "key1", 100);
    assert_eq!(r5, OpResult::WriteOk, "Write should succeed after partition heals");

    let r6 = store.read(0, "key1");
    assert_eq!(r6, OpResult::ReadOk(Some(100)), "Read should return new value after healing");

    let ops = history.get_operations();
    let error_count = ops.iter().filter(|op| matches!(op, OpResult::Error(_))).count();
    assert_eq!(error_count, 2, "Should have 2 error operations during partition");
}

/// State persists, reads after recovery return pre-crash values
#[test]
fn test_fault_injection_crash_recovery() {
    let history = History::new();
    let fault = FaultInjector::new();
    let store = FaultAwareStore::new(history.clone(), fault.clone());

    store.write(0, "persistent_key", 42);
    store.write(0, "another_key", 100);
    assert_eq!(store.read(0, "persistent_key"), OpResult::ReadOk(Some(42)));

    fault.crash();

    let r1 = store.write(0, "persistent_key", 999);
    assert!(
        matches!(r1, OpResult::Error(ref e) if e.contains("crashed")),
        "Write during crash should fail"
    );

    let r2 = store.read(0, "persistent_key");
    assert!(
        matches!(r2, OpResult::Error(ref e) if e.contains("crashed")),
        "Read during crash should fail"
    );

    fault.recover();

    let r3 = store.read(0, "persistent_key");
    assert_eq!(r3, OpResult::ReadOk(Some(42)), "Pre-crash data should persist after recovery");

    let r4 = store.read(0, "another_key");
    assert_eq!(r4, OpResult::ReadOk(Some(100)), "All pre-crash data should persist");

    assert_eq!(
        store.get_raw("persistent_key"),
        Some(42),
        "Value should not have changed during crash"
    );
}
