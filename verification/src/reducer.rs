//! Reducers: metered programs, one at a time on a shard, with a breaker that shuts
//! out a reducer that keeps failing.
use crate::maps::KeyMap;
use crate::scan::push_all;
use crate::store;
use crate::store::Store;
use crate::vm;
use crate::vm::{commit, Instr, Program, Txn, Vm, VmError};
use vstd::prelude::*;

verus! {

/// The fuel of one invocation.
pub const DEFAULT_FUEL: u64 = 100_000;

/// The number of failures in a row that shuts a reducer out.
pub const ERROR_THRESHOLD: u32 = 3;

/// What an invocation came to.
#[derive(Debug)]
pub enum ReducerResult {
    Done { fuel_used: u64, output: Option<i64> },
    Aborted(VmError),
    Quarantined,
}

/// The FNV-1a hash of a key.
pub open spec fn fnv(key: Seq<u8>) -> u64
    decreases key.len(),
{
    if key.len() == 0 {
        0xcbf29ce484222325
    } else {
        (fnv(key.drop_last()) ^ (key.last() as u64)).wrapping_mul(0x100000001b3)
    }
}

/// The FNV-1a hash of a key.
pub fn fnv_hash(key: &[u8]) -> (r: u64)
    ensures
        r == fnv(key@),
{
    let mut h: u64 = 0xcbf29ce484222325;
    let mut i: usize = 0;
    while i < key.len()
        invariant
            i <= key@.len(),
            h == fnv(key@.take(i as int)),
        decreases key@.len() - i,
    {
        proof {
            let t = key@.take(i + 1);
            assert(t.drop_last() =~= key@.take(i as int));
            assert(t.last() == key@[i as int]);
        }
        h = (h ^ (key[i] as u64)).wrapping_mul(0x100000001b3);
        i = i + 1;
    }
    proof {
        assert(key@.take(i as int) =~= key@);
    }
    h
}

/// The shard of a key.
pub fn shard_of(key: &[u8], n: usize) -> (r: usize)
    requires
        n > 0,
    ensures
        r == fnv(key@) % (n as u64),
        r < n,
{
    (fnv_hash(key) % (n as u64)) as usize
}

/// A breaker: failures in a row, and whether the reducer is shut out.
#[derive(Clone, Copy, Debug, PartialEq, Eq, Structural)]
pub struct Breaker {
    pub consecutive_errors: u32,
    pub quarantined: bool,
}

pub open spec fn fresh_breaker() -> Breaker {
    Breaker { consecutive_errors: 0, quarantined: false }
}

/// The breaker of a name after it was asked for.
pub open spec fn breaker_of(m: Map<Seq<char>, Breaker>, name: Seq<char>) -> Breaker {
    if m.contains_key(name) {
        m[name]
    } else {
        fresh_breaker()
    }
}

/// A breaker after one more failure.
pub open spec fn after_error(b: Breaker) -> Breaker {
    let n = b.consecutive_errors.wrapping_add(1);
    Breaker { consecutive_errors: n, quarantined: b.quarantined || n >= ERROR_THRESHOLD }
}

/// A breaker after a success.
pub open spec fn after_success(b: Breaker) -> Breaker {
    Breaker { consecutive_errors: 0, quarantined: b.quarantined }
}

/// The breakers after a run of `name` ended: a name that never came is not tracked.
pub open spec fn settled(
    m: Map<Seq<char>, Breaker>,
    name: Seq<char>,
    ok: bool,
) -> Map<Seq<char>, Breaker> {
    if m.contains_key(name) {
        m.insert(
            name,
            if ok {
                after_success(m[name])
            } else {
                after_error(m[name])
            },
        )
    } else {
        m
    }
}

/// How the run of a program on a store ends.
pub open spec fn reducer_run(
    prog: Seq<vm::InstrView>,
    s: Map<Seq<u8>, store::ValueView>,
) -> vm::Halt {
    vm::run_from(
        prog,
        vm::Machine {
            pc: 0,
            stack: Seq::empty(),
            fuel: DEFAULT_FUEL as nat,
            txn: vm::TxnView { base: s, writes: Map::empty() },
        },
    )
}

/// The reducers' runtime: the breakers, and the number of shards.
pub struct ReducerRuntime {
    shards: usize,
    breakers: KeyMap<String, Breaker>,
}

impl View for ReducerRuntime {
    type V = Map<Seq<char>, Breaker>;

    closed spec fn view(&self) -> Map<Seq<char>, Breaker> {
        self.breakers@
    }
}

impl ReducerRuntime {
    pub closed spec fn wf(&self) -> bool {
        self.breakers.wf() && self.shards >= 1
    }

    pub closed spec fn shards(&self) -> usize {
        self.shards
    }

    /// A runtime with at least one shard.
    pub fn new(shard_count: usize) -> (r: Self)
        ensures
            r.wf(),
            r@ == Map::<Seq<char>, Breaker>::empty(),
            r.shards() == (if shard_count >= 1 { shard_count } else { 1 }),
    {
        ReducerRuntime {
            shards: if shard_count >= 1 {
                shard_count
            } else {
                1
            },
            breakers: KeyMap::new(),
        }
    }

    /// The shard that an invocation has to hold, or nothing for a reducer that is
    /// shut out. From here on the name is tracked.
    pub fn enter(&mut self, name: &str, shard_key: &[u8]) -> (r: Option<usize>)
        requires
            old(self).wf(),
        ensures
            final(self).wf(),
            final(self).shards() == old(self).shards(),
            final(self)@ == old(self)@.insert(name@, breaker_of(old(self)@, name@)),
            match r {
                Some(shard) => !breaker_of(old(self)@, name@).quarantined && shard == fnv(
                    shard_key@,
                ) % (old(self).shards() as u64) && shard < old(self).shards(),
                None => breaker_of(old(self)@, name@).quarantined,
            },
    {
        let key = name.to_owned();
        let b: Breaker = match self.breakers.get(&key) {
            Some(b) => *b,
            None => Breaker { consecutive_errors: 0, quarantined: false },
        };
        self.breakers.insert(key, b);
        if b.quarantined {
            None
        } else {
            Some(shard_of(shard_key, self.shards))
        }
    }

    /// Tells the breaker how an invocation ended.
    pub fn settle(&mut self, name: &str, ok: bool)
        requires
            old(self).wf(),
        ensures
            final(self).wf(),
            final(self).shards() == old(self).shards(),
            final(self)@ == settled(old(self)@, name@, ok),
    {
        let key = name.to_owned();
        let b: Breaker = match self.breakers.get(&key) {
            Some(b) => *b,
            None => {
                return ;
            },
        };
        let next: Breaker = if ok {
            Breaker { consecutive_errors: 0, quarantined: b.quarantined }
        } else {
            let n: u32 = b.consecutive_errors.wrapping_add(1);
            Breaker { consecutive_errors: n, quarantined: b.quarantined || n >= ERROR_THRESHOLD }
        };
        self.breakers.insert(key, next);
    }

    /// Invokes a reducer on a store. `commits` says whether the store takes the writes
    /// of the run, or finds a conflict; a conflict counts as a failure. A run that
    /// failed, or whose writes were not taken, leaves the store as it was.
    pub fn invoke(
        &mut self,
        name: &str,
        shard_key: &[u8],
        prog: &Program,
        store: &mut Store,
        commits: bool,
    ) -> (r: ReducerResult)
        requires
            old(self).wf(),
            old(store).wf(),
        ensures
            final(self).wf(),
            final(store).wf(),
            final(self).shards() == old(self).shards(),
            ({
                let tracked_by = old(self)@.insert(name@, breaker_of(old(self)@, name@));
                let h = reducer_run(prog@, old(store)@);
                if breaker_of(old(self)@, name@).quarantined {
                    &&& r is Quarantined
                    &&& final(self)@ == tracked_by
                    &&& final(store)@ == old(store)@
                } else {
                    match h.outcome {
                        Err(e) => {
                            &&& r matches ReducerResult::Aborted(x) && x@ == e
                            &&& final(self)@ == settled(tracked_by, name@, false)
                            &&& final(store)@ == old(store)@
                        },
                        Ok(v) => if commits {
                            &&& r matches ReducerResult::Done { fuel_used, output } && output == v
                                && fuel_used == DEFAULT_FUEL - h.fuel
                            &&& final(self)@ == settled(tracked_by, name@, true)
                            &&& final(store)@ == vm::committed(old(store)@, h.txn.writes)
                        } else {
                            &&& r matches ReducerResult::Aborted(x) && x@
                                == vm::VmErrorView::Trap("commit conflict"@)
                            &&& final(self)@ == settled(tracked_by, name@, false)
                            &&& final(store)@ == old(store)@
                        },
                    }
                }
            }),
    {
        match self.enter(name, shard_key) {
            None => {
                return ReducerResult::Quarantined;
            },
            Some(_) => {},
        }
        let mut vm = Vm::new(DEFAULT_FUEL);
        let mut txn = Txn::begin(store);
        let result = vm.run(prog, &mut txn);
        let writes = txn.into_writes();
        match result {
            Ok(output) => {
                if commits {
                    commit(&writes, store);
                    self.settle(name, true);
                    ReducerResult::Done { fuel_used: vm.fuel_used(), output }
                } else {
                    self.settle(name, false);
                    ReducerResult::Aborted(VmError::Trap("commit conflict".to_owned()))
                }
            },
            Err(e) => {
                self.settle(name, false);
                ReducerResult::Aborted(e)
            },
        }
    }

    /// Lets a reducer in again that was shut out.
    pub fn reenable(&mut self, name: &str)
        requires
            old(self).wf(),
        ensures
            final(self).wf(),
            final(self).shards() == old(self).shards(),
            final(self)@ == (if old(self)@.contains_key(name@) {
                old(self)@.insert(name@, fresh_breaker())
            } else {
                old(self)@
            }),
    {
        let key = name.to_owned();
        let known = self.breakers.get(&key).is_some();
        if known {
            self.breakers.insert(key, Breaker { consecutive_errors: 0, quarantined: false });
        }
    }

    pub fn is_quarantined(&self, name: &str) -> (r: bool)
        requires
            self.wf(),
        ensures
            r == breaker_of(self@, name@).quarantined,
    {
        match self.breakers.get(&name.to_owned()) {
            Some(b) => b.quarantined,
            None => false,
        }
    }
}

/// The program that adds `by` to the number at a key and returns the sum.
pub open spec fn counter_program(key: Seq<u8>, by: i64) -> Seq<vm::InstrView> {
    seq![
        vm::InstrView::LoadInt(key),
        vm::InstrView::PushInt(by),
        vm::InstrView::Add,
        vm::InstrView::Dup,
        vm::InstrView::StoreInt(key),
        vm::InstrView::Return,
    ]
}

fn copy_key(key: &[u8]) -> (r: Vec<u8>)
    ensures
        r@ == key@,
{
    let mut k: Vec<u8> = Vec::new();
    push_all(&mut k, key);
    proof {
        assert(k@ =~= key@);
    }
    k
}

/// Builds the program that adds `by` to the number at a key.
pub fn counter_reducer(key: &[u8], by: i64) -> (r: Program)
    ensures
        r@ == counter_program(key@, by),
{
    let mut instrs: Vec<Instr> = Vec::new();
    instrs.push(Instr::LoadInt(copy_key(key)));
    instrs.push(Instr::PushInt(by));
    instrs.push(Instr::Add);
    instrs.push(Instr::Dup);
    instrs.push(Instr::StoreInt(copy_key(key)));
    instrs.push(Instr::Return);
    let r = Program { instrs };
    proof {
        assert(r@ =~= counter_program(key@, by));
    }
    r
}

/// The counter program always succeeds: it returns the old number plus `by`, writes
/// that and nothing else, and costs 26 units of fuel.
pub proof fn law_counter_counts(key: Seq<u8>, by: i64, s: Map<Seq<u8>, store::ValueView>)
    ensures
        ({
            let before = vm::TxnView { base: s, writes: Map::empty() }.number(key);
            let h = reducer_run(counter_program(key, by), s);
            let sum = before.wrapping_add(by);
            &&& h.outcome == Ok::<Option<i64>, vm::VmErrorView>(Some(sum))
            &&& h.txn.writes == Map::<Seq<u8>, i64>::empty().insert(key, sum)
            &&& DEFAULT_FUEL - h.fuel == 26
        }),
{
    let p = counter_program(key, by);
    let t0 = vm::TxnView { base: s, writes: Map::empty() };
    let before = t0.number(key);
    let sum = before.wrapping_add(by);
    let none = Seq::<i64>::empty();
    let m0 = vm::Machine { pc: 0, stack: none, fuel: 100_000, txn: t0 };
    let m1 = vm::Machine { pc: 1, stack: none.push(before), fuel: 99_989, txn: t0 };
    let m2 = vm::Machine { pc: 2, stack: none.push(before).push(by), fuel: 99_988, txn: t0 };
    let m3 = vm::Machine { pc: 3, stack: none.push(sum), fuel: 99_987, txn: t0 };
    let m4 = vm::Machine { pc: 4, stack: none.push(sum).push(sum), fuel: 99_986, txn: t0 };
    let t1 = vm::TxnView { base: s, writes: t0.writes.insert(key, sum) };
    let m5 = vm::Machine { pc: 5, stack: none.push(sum), fuel: 99_975, txn: t1 };
    assert(vm::run_from(p, m0) == vm::run_from(p, m1));
    assert(vm::run_from(p, m1) == vm::run_from(p, m2));
    assert(m2.stack.take(0) =~= none);
    assert(vm::run_from(p, m2) == vm::run_from(p, m3));
    assert(vm::run_from(p, m3) == vm::run_from(p, m4));
    assert(m4.stack.drop_last() =~= m5.stack);
    assert(vm::run_from(p, m4) == vm::run_from(p, m5));
    assert(vm::run_from(p, m5).outcome == Ok::<Option<i64>, vm::VmErrorView>(Some(sum)));
}

/// `n` failures in a row.
pub open spec fn after_errors(b: Breaker, n: nat) -> Breaker
    decreases n,
{
    if n == 0 {
        b
    } else {
        after_error(after_errors(b, (n - 1) as nat))
    }
}

/// A reducer that fails over and over is shut out at the third failure in a row, not
/// before, and stays so; a success in between starts the count anew.
pub proof fn law_breaker_opens_at_threshold(n: nat)
    requires
        n <= u32::MAX,
    ensures
        after_errors(fresh_breaker(), n).quarantined == (n >= ERROR_THRESHOLD),
        after_errors(fresh_breaker(), n).consecutive_errors == n,
        forall|b: Breaker| #[trigger] after_success(b).consecutive_errors == 0,
        forall|b: Breaker| b.quarantined ==> #[trigger] after_error(b).quarantined,
        forall|b: Breaker| b.quarantined ==> #[trigger] after_success(b).quarantined,
    decreases n,
{
    if n > 0 {
        law_breaker_opens_at_threshold((n - 1) as nat);
    }
}

/// A name that was never asked for is let in; one that is let in again starts with a clean sheet.
/// Settling a run changes the breaker of its own name alone: a failure counts one more, a success
/// none, and neither lets a name in that is shut out.
pub proof fn law_breakers_are_their_own(
    m: Map<Seq<char>, Breaker>,
    name: Seq<char>,
    other: Seq<char>,
    ok: bool,
)
    ensures
        !m.contains_key(name) ==> !breaker_of(m, name).quarantined && breaker_of(
            m,
            name,
        ).consecutive_errors == 0,
        other != name ==> breaker_of(settled(m, name, ok), other) == breaker_of(m, other),
        breaker_of(m, name).quarantined ==> breaker_of(settled(m, name, ok), name).quarantined,
        ok ==> breaker_of(settled(m, name, ok), name).quarantined == breaker_of(m, name).quarantined,
        m.contains_key(name) && ok ==> breaker_of(settled(m, name, ok), name).consecutive_errors
            == 0,
        m.contains_key(name) && !ok && m[name].consecutive_errors < u32::MAX ==> breaker_of(
            settled(m, name, ok),
            name,
        ).consecutive_errors == m[name].consecutive_errors + 1,
        m.contains_key(name) && !ok && m[name].consecutive_errors < 2 ==> breaker_of(
            settled(m, name, ok),
            name,
        ).quarantined == m[name].quarantined,
        m.contains_key(name) && !ok && m[name].consecutive_errors == 2 ==> breaker_of(
            settled(m, name, ok),
            name,
        ).quarantined,
{
}

/// A run of a reducer is a run of its program from an empty stack and with a full tank, on what
/// the store holds: a number that was never written reads as the store has it.
pub proof fn law_reducers_read_the_store(key: Seq<u8>, s: Map<Seq<u8>, store::ValueView>)
    ensures
        ({
            let h = reducer_run(seq![vm::InstrView::LoadInt(key), vm::InstrView::Return], s);
            &&& h.outcome matches Ok(Some(v)) && (s.contains_key(key) && s[key]
                == store::ValueView::Int(v) || v == 0 && (!s.contains_key(key)
                || !(s[key] is Int)))
            &&& h.txn.writes == Map::<Seq<u8>, i64>::empty()
            &&& h.fuel == 100_000 - 12
        }),
{
    reveal_with_fuel(vm::run_from, 3);
}

/// The hash starts from the offset basis, and takes each byte by an exclusive or and then a
/// multiplication by the prime, in the low 64 bits.
pub proof fn law_hash_takes_byte_by_byte(key: Seq<u8>, b: u8)
    ensures
        fnv(Seq::empty()) == 14_695_981_039_346_656_037,
        fnv(key.push(b)) == ((fnv(key) ^ (b as u64)) * 1_099_511_628_211)
            % 0x1_0000_0000_0000_0000,
{
    assert(key.push(b).drop_last() =~= key);
}

} // verus!
