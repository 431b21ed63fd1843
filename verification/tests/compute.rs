//! Reducers and the machine that runs them.
use dbstrike::reducer::{
    counter_reducer, fnv_hash, shard_of, ReducerResult, ReducerRuntime, DEFAULT_FUEL,
};
use dbstrike::store::{Store, Value};
use dbstrike::vm::{Instr, Program, Txn, Vm, VmError};

#[test]
fn reducer_increments_and_commits() {
    let mut e = Store::new();
    let mut rt = ReducerRuntime::new(8);
    let prog = counter_reducer(b"kv:hits", 5);
    let r = rt.invoke("hit", b"kv:hits", &prog, &mut e, true);
    assert!(matches!(r, ReducerResult::Done { output: Some(5), .. }));
    assert_eq!(e.get(&b"kv:hits".to_vec()), Some(Value::Int(5)));
    let r2 = rt.invoke("hit", b"kv:hits", &prog, &mut e, true);
    assert!(matches!(r2, ReducerResult::Done { output: Some(10), .. }));
    assert_eq!(e.get(&b"kv:hits".to_vec()), Some(Value::Int(10)));
}

#[test]
fn fuel_exhaustion_aborts_and_rolls_back() {
    let mut e = Store::new();
    let mut rt = ReducerRuntime::new(4);
    // infinite loop program: Jump back to 0 forever
    let prog = Program { instrs: vec![Instr::PushInt(1), Instr::Pop, Instr::Jump(0)] };
    let r = rt.invoke("bad", b"shardA", &prog, &mut e, true);
    assert!(matches!(r, ReducerResult::Aborted(VmError::OutOfFuel)));
}

#[test]
fn circuit_breaker_quarantines_after_threshold() {
    let mut e = Store::new();
    let mut rt = ReducerRuntime::new(4);
    let bad = Program { instrs: vec![Instr::Trap("boom".into())] };
    for _ in 0..3 {
        let _ = rt.invoke("flaky", b"k", &bad, &mut e, true);
    }
    assert!(rt.is_quarantined("flaky"));
    assert!(matches!(
        rt.invoke("flaky", b"k", &bad, &mut e, true),
        ReducerResult::Quarantined
    ));
    rt.reenable("flaky");
    assert!(!rt.is_quarantined("flaky"));
}

#[test]
fn an_aborted_reducer_writes_nothing() {
    let mut e = Store::new();
    e.put(b"n".to_vec(), Value::Int(1));
    let mut rt = ReducerRuntime::new(2);
    let prog = Program {
        instrs: vec![Instr::PushInt(9), Instr::StoreInt(b"n".to_vec()), Instr::Trap("late".into())],
    };
    let r = rt.invoke("r", b"n", &prog, &mut e, true);
    match r {
        ReducerResult::Aborted(err) => assert!(err.message().contains("late")),
        _ => unreachable!(),
    }
    assert_eq!(e.get(&b"n".to_vec()), Some(Value::Int(1)));
}

#[test]
fn the_machine_reports_each_fault() {
    let s = Store::new();
    let run = |instrs: Vec<Instr>, fuel: u64| {
        let mut txn = Txn::begin(&s);
        let mut vm = Vm::new(fuel);
        let r = vm.run(&Program { instrs }, &mut txn);
        (r, vm.fuel_used())
    };
    assert!(matches!(run(vec![Instr::Add], 10).0, Err(VmError::StackUnderflow)));
    assert!(matches!(run(vec![Instr::Jump(9)], 10).0, Err(VmError::BadJump(9))));
    assert!(matches!(run(vec![Instr::PushInt(1)], 0).0, Err(VmError::OutOfFuel)));
    let (r, used) = run(
        vec![
            Instr::PushInt(6),
            Instr::PushInt(7),
            Instr::Mul,
            Instr::Dup,
            Instr::Sub,
            Instr::JumpIfZero(7),
            Instr::Trap("never".into()),
            Instr::PushInt(3),
            Instr::Return,
        ],
        DEFAULT_FUEL,
    );
    assert!(matches!(r, Ok(Some(3))));
    assert!(used > 0);
}

#[test]
fn keys_hash_to_their_shards() {
    assert_eq!(fnv_hash(b""), 0xcbf29ce484222325);
    assert_eq!(fnv_hash(b"a"), 0xaf63dc4c8601ec8c);
    assert_eq!(shard_of(b"a", 8), (0xaf63dc4c8601ec8cu64 % 8) as usize);
}

#[test]
fn a_run_ends_only_where_it_has_a_cause() {
    let s = Store::new();
    let run = |instrs: Vec<Instr>| {
        let mut txn = Txn::begin(&s);
        let r = Vm::new(100).run(&Program { instrs }, &mut txn);
        let writes = txn.into_writes();
        (r, writes.get(&b"a".to_vec()).copied(), writes.get(&b"b".to_vec()).copied())
    };
    // Running off the end is a jump to nowhere; only a return gives a result.
    let (r, _, _) = run(vec![Instr::PushInt(1), Instr::Pop]);
    assert!(matches!(r, Err(VmError::BadJump(2))));
    let store = Instr::StoreInt(b"a".to_vec());
    let (r, a, b) = run(vec![Instr::PushInt(4), Instr::Dup, store, Instr::Return]);
    assert!(matches!(r, Ok(Some(4))));
    assert_eq!((a, b), (Some(4), None));
    assert!(matches!(run(vec![Instr::Return]).0, Ok(None)));
}
