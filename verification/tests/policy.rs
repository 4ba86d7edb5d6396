use std::cell::RefCell;
use zydecodb_engine::engine::write::WriteGate;
use zydecodb_engine::engine::{BatchOp, Engine, EngineConfig};
use zydecodb_engine::errors::{EngineError, EngineResult};
use zydecodb_engine::harness::tenants::{busy_class, tenant_key};
use zydecodb_engine::keys::{KS_SYSTEM, KS_USER};
use zydecodb_engine::policy::{NoopWritePolicy, WriteFacts, WritePolicy};

const NOW: u64 = 1_700_000_000_000;
const GATE: WriteGate = WriteGate { fair_on: false, noisy: false, admits: true };
const FULL_SHARE: WriteGate = WriteGate { fair_on: true, noisy: false, admits: false };

fn open() -> Engine {
    Engine::open(EngineConfig::default(), 0, Vec::new(), &Vec::new(), false).unwrap()
}

fn uk(k: u8) -> Vec<u8> {
    vec![KS_USER, k]
}

/// Refuses values above a size, and notes what it is asked and told.
struct Limit {
    most: usize,
    seen: RefCell<Vec<(&'static str, Vec<u8>, usize, Option<usize>, bool)>>,
}

impl Limit {
    fn of(most: usize) -> Limit {
        Limit { most, seen: RefCell::new(Vec::new()) }
    }
}

impl WritePolicy for Limit {
    fn looks_up(&self) -> bool {
        unreachable!()
    }
    fn allows(&self, _engine: Engine, _write: WriteFacts) -> bool {
        unreachable!()
    }
    fn refuses_with(&self, _engine: Engine, _write: WriteFacts, _e: EngineError) -> bool {
        unreachable!()
    }
    fn asked(&self, _before: Engine, _write: WriteFacts, _after: Engine) -> bool {
        unreachable!()
    }
    fn told(&self, _before: Engine, _write: WriteFacts, _after: Engine) -> bool {
        unreachable!()
    }
    fn needs_existing_len(&self) -> bool {
        true
    }
    fn pre_write(
        &self,
        _engine: &mut Engine,
        key: &[u8],
        value_len: usize,
        existing: Option<usize>,
        is_delete: bool,
    ) -> EngineResult<()> {
        self.seen.borrow_mut().push(("asked", key.to_vec(), value_len, existing, is_delete));
        if value_len > self.most {
            return Err(EngineError::PolicyRejected("too long".into()));
        }
        Ok(())
    }
    fn post_write(
        &self,
        _engine: &mut Engine,
        key: &[u8],
        value_len: usize,
        existing: Option<usize>,
        is_delete: bool,
    ) {
        self.seen.borrow_mut().push(("told", key.to_vec(), value_len, existing, is_delete));
    }
}

#[test]
fn the_policy_that_allows_everything_lets_every_write_through() {
    let mut e = open();
    let p = NoopWritePolicy;
    assert_eq!(e.put_with_policy(&p, uk(1), vec![1], 0, GATE, NOW).unwrap(), 1);
    assert_eq!(e.del_with_policy(&p, uk(1), GATE, NOW).unwrap(), (true, 2));
    let ops = vec![
        BatchOp::Put { key: uk(2), value: vec![2], expires_at: 0 },
        BatchOp::Del { key: uk(3) },
    ];
    assert_eq!(e.write_batch_with_policy(&p, ops, GATE, NOW).unwrap(), 3);
    assert_eq!(e.get(&uk(1), NOW).unwrap(), None);
    assert_eq!(e.get(&uk(2), NOW).unwrap(), Some(vec![2]));
}

#[test]
fn a_policy_is_asked_before_a_write_and_told_after_it() {
    let mut e = open();
    let p = Limit::of(2);
    e.put_with_policy(&p, uk(1), vec![1, 1], 0, GATE, NOW).unwrap();
    e.put_with_policy(&p, uk(1), vec![1], 0, GATE, NOW).unwrap();
    e.del_with_policy(&p, uk(1), GATE, NOW).unwrap();
    assert_eq!(
        *p.seen.borrow(),
        vec![
            ("asked", uk(1), 2, None, false),
            ("told", uk(1), 2, None, false),
            ("asked", uk(1), 1, Some(2), false),
            ("told", uk(1), 1, Some(2), false),
            ("asked", uk(1), 0, Some(1), true),
            ("told", uk(1), 0, Some(1), true),
        ]
    );
}

#[test]
fn a_refusal_is_the_policys_own_error_and_writes_nothing() {
    let mut e = open();
    let p = Limit::of(1);
    match e.put_with_policy(&p, uk(1), vec![1, 2], 0, GATE, NOW) {
        Err(EngineError::PolicyRejected(m)) => assert_eq!(m, "too long"),
        other => panic!("{:?}", other),
    }
    let ops = vec![
        BatchOp::Put { key: uk(1), value: vec![1], expires_at: 0 },
        BatchOp::Put { key: uk(2), value: vec![1, 2], expires_at: 0 },
        BatchOp::Put { key: uk(3), value: vec![1], expires_at: 0 },
    ];
    assert!(matches!(
        e.write_batch_with_policy(&p, ops, GATE, NOW),
        Err(EngineError::PolicyRejected(_))
    ));
    // The operations after the refused one are not asked about, and nobody is told.
    let seen: Vec<(&str, Vec<u8>)> =
        p.seen.borrow().iter().map(|s| (s.0, s.1.clone())).collect();
    assert_eq!(seen, vec![("asked", uk(1)), ("asked", uk(1)), ("asked", uk(2))]);
    assert_eq!(e.current_seq(), 0);
}

#[test]
fn an_engine_without_numbers_is_full() {
    let mut e = Engine::open(EngineConfig::default(), u64::MAX - 1, Vec::new(), &Vec::new(), false)
        .unwrap();
    let p = Limit::of(9);
    match e.put_with_policy(&p, uk(1), vec![1], 0, GATE, NOW) {
        Err(EngineError::EngineBusy(m)) => assert_eq!(m, "engine full"),
        other => panic!("{:?}", other),
    }
    // The policy was asked, and nothing was written that it could be told of.
    assert_eq!(p.seen.borrow().len(), 1);
}

#[test]
fn a_tenant_without_a_share_of_the_memtable_cannot_put() {
    let mut e = open();
    let mine = tenant_key(1, 5);
    let message = match e.put(mine.clone(), vec![1], 0, FULL_SHARE) {
        Err(EngineError::EngineBusy(m)) => m,
        other => panic!("{:?}", other),
    };
    assert_eq!(message, "fair memtable share exhausted");
    assert_eq!(busy_class(&message), "fair_memtable");
    assert_eq!(e.current_seq(), 0);
    // Keys of no tenant and deletions need no share.
    e.put(uk(1), vec![1], 0, FULL_SHARE).unwrap();
    e.del(mine.clone(), FULL_SHARE, NOW).unwrap();
    e.write_batch(vec![BatchOp::Del { key: mine.clone() }], FULL_SHARE).unwrap();
    let ops = vec![
        BatchOp::Del { key: uk(1) },
        BatchOp::Put { key: mine.clone(), value: vec![2], expires_at: 0 },
    ];
    assert!(matches!(e.write_batch(ops, FULL_SHARE), Err(EngineError::EngineBusy(_))));
    assert_eq!(e.get(&uk(1), NOW).unwrap(), Some(vec![1]));
    // A policy is asked before the share is looked at.
    let p = Limit::of(0);
    assert!(matches!(
        e.put_with_policy(&p, mine.clone(), vec![1], 0, FULL_SHARE, NOW),
        Err(EngineError::PolicyRejected(_))
    ));
    let p = Limit::of(9);
    assert!(matches!(
        e.put_with_policy(&p, mine, vec![1], 0, FULL_SHARE, NOW),
        Err(EngineError::EngineBusy(_))
    ));
    assert_eq!(p.seen.borrow().len(), 1);
}

/// Notes every write in a system record.
struct Ledger;

impl WritePolicy for Ledger {
    fn looks_up(&self) -> bool {
        unreachable!()
    }
    fn allows(&self, _engine: Engine, _write: WriteFacts) -> bool {
        unreachable!()
    }
    fn refuses_with(&self, _engine: Engine, _write: WriteFacts, _e: EngineError) -> bool {
        unreachable!()
    }
    fn asked(&self, _before: Engine, _write: WriteFacts, _after: Engine) -> bool {
        unreachable!()
    }
    fn told(&self, _before: Engine, _write: WriteFacts, _after: Engine) -> bool {
        unreachable!()
    }
    fn needs_existing_len(&self) -> bool {
        false
    }
    fn pre_write(
        &self,
        _engine: &mut Engine,
        _key: &[u8],
        _value_len: usize,
        _existing: Option<usize>,
        _is_delete: bool,
    ) -> EngineResult<()> {
        Ok(())
    }
    fn post_write(
        &self,
        engine: &mut Engine,
        _key: &[u8],
        value_len: usize,
        _existing: Option<usize>,
        _is_delete: bool,
    ) {
        engine.sys_put_policy(vec![KS_SYSTEM, 1], vec![value_len as u8]).unwrap();
    }
}

#[test]
fn what_a_policy_records_is_frozen_with_the_write() {
    let cfg = EngineConfig { memtable_flush_threshold: 1, ..EngineConfig::default() };
    let mut e = Engine::open(cfg, 0, Vec::new(), &Vec::new(), false).unwrap();
    assert_eq!(e.put_with_policy(&Ledger, uk(1), vec![1, 2, 3], 0, GATE, NOW).unwrap(), 1);
    assert_eq!(e.current_seq(), 2);
    assert_eq!(e.immutable_len(), 1);
    assert_eq!(e.sys_get(&[KS_SYSTEM, 1], NOW).unwrap(), Some(vec![3]));
    e.force_flush().unwrap();
    assert_eq!(e.sstable_count(), 1);
    assert_eq!(e.sys_get(&[KS_SYSTEM, 1], NOW).unwrap(), Some(vec![3]));
    assert_eq!(e.get(&uk(1), NOW).unwrap(), Some(vec![1, 2, 3]));
}
