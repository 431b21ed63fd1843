//! The reducer sandbox: a small stack machine that pays fuel for every instruction,
//! so that a runaway reducer stops and its transaction is given up.
use crate::maps::KeyMap;
use crate::scan::push_all;
use crate::store;
use crate::store::{Store, Value};
use crate::text::dec_string;
use vstd::prelude::*;
use vstd::string::*;

verus! {

/// An instruction of the machine.
#[derive(Clone, Debug)]
pub enum Instr {
    PushInt(i64),
    Pop,
    /// Duplicates the top of the stack.
    Dup,
    Add,
    Sub,
    Mul,
    /// Pushes the number at a key, 0 where there is none.
    LoadInt(Vec<u8>),
    /// Pops a number and stores it at a key.
    StoreInt(Vec<u8>),
    Jump(usize),
    /// Pops; jumps where that was zero.
    JumpIfZero(usize),
    /// Pops the result, if there is one, and stops.
    Return,
    Trap(String),
}

#[derive(Clone, Debug)]
pub struct Program {
    pub instrs: Vec<Instr>,
}

/// Why a run was given up.
#[derive(Debug)]
pub enum VmError {
    OutOfFuel,
    StackUnderflow,
    BadJump(usize),
    Trap(String),
}

/// What an instruction says.
pub enum InstrView {
    PushInt(i64),
    Pop,
    Dup,
    Add,
    Sub,
    Mul,
    LoadInt(Seq<u8>),
    StoreInt(Seq<u8>),
    Jump(int),
    JumpIfZero(int),
    Return,
    Trap(Seq<char>),
}

/// Why a run was given up.
pub enum VmErrorView {
    OutOfFuel,
    StackUnderflow,
    BadJump(int),
    Trap(Seq<char>),
}

impl View for Instr {
    type V = InstrView;

    open spec fn view(&self) -> InstrView {
        match self {
            Instr::PushInt(v) => InstrView::PushInt(*v),
            Instr::Pop => InstrView::Pop,
            Instr::Dup => InstrView::Dup,
            Instr::Add => InstrView::Add,
            Instr::Sub => InstrView::Sub,
            Instr::Mul => InstrView::Mul,
            Instr::LoadInt(k) => InstrView::LoadInt(k@),
            Instr::StoreInt(k) => InstrView::StoreInt(k@),
            Instr::Jump(t) => InstrView::Jump(*t as int),
            Instr::JumpIfZero(t) => InstrView::JumpIfZero(*t as int),
            Instr::Return => InstrView::Return,
            Instr::Trap(m) => InstrView::Trap(m@),
        }
    }
}

impl View for VmError {
    type V = VmErrorView;

    open spec fn view(&self) -> VmErrorView {
        match self {
            VmError::OutOfFuel => VmErrorView::OutOfFuel,
            VmError::StackUnderflow => VmErrorView::StackUnderflow,
            VmError::BadJump(i) => VmErrorView::BadJump(*i as int),
            VmError::Trap(m) => VmErrorView::Trap(m@),
        }
    }
}

impl View for Program {
    type V = Seq<InstrView>;

    open spec fn view(&self) -> Seq<InstrView> {
        Seq::new(self.instrs@.len(), |i: int| self.instrs@[i]@)
    }
}

impl VmError {
    pub open spec fn text(self) -> Seq<char> {
        match self {
            VmError::OutOfFuel => "reducer aborted: out of fuel"@,
            VmError::StackUnderflow => "reducer aborted: stack underflow"@,
            VmError::BadJump(i) => "reducer aborted: bad jump to "@ + crate::text::dec_text(
                i as nat,
            ),
            VmError::Trap(m) => "reducer trap: "@ + m@,
        }
    }

    /// The error as a line for the user.
    pub fn message(&self) -> (r: String)
        ensures
            r@ == self.text(),
    {
        match self {
            VmError::OutOfFuel => "reducer aborted: out of fuel".to_owned(),
            VmError::StackUnderflow => "reducer aborted: stack underflow".to_owned(),
            VmError::BadJump(i) => {
                let mut s: String = "reducer aborted: bad jump to ".to_owned();
                s.append(dec_string(*i as u64).as_str());
                s
            },
            VmError::Trap(m) => {
                let mut s: String = "reducer trap: ".to_owned();
                s.append(m.as_str());
                s
            },
        }
    }
}

/// The writes of a transaction, over what the store held when it began.
pub struct Txn<'a> {
    base: &'a Store,
    writes: KeyMap<Vec<u8>, i64>,
}

/// What a transaction reads and has written.
pub struct TxnView {
    pub base: Map<Seq<u8>, store::ValueView>,
    pub writes: Map<Seq<u8>, i64>,
}

impl TxnView {
    /// The number at a key: its own write first, then the store; 0 for anything else.
    pub open spec fn number(self, key: Seq<u8>) -> i64 {
        if self.writes.contains_key(key) {
            self.writes[key]
        } else if self.base.contains_key(key) {
            match self.base[key] {
                store::ValueView::Int(i) => i,
                _ => 0,
            }
        } else {
            0
        }
    }
}

impl<'a> View for Txn<'a> {
    type V = TxnView;

    closed spec fn view(&self) -> TxnView {
        TxnView { base: self.base@, writes: self.writes@ }
    }
}

/// A store with the writes of a transaction in it.
pub open spec fn committed(
    s: Map<Seq<u8>, store::ValueView>,
    writes: Map<Seq<u8>, i64>,
) -> Map<Seq<u8>, store::ValueView> {
    s.union_prefer_right(writes.map_values(|v: i64| store::ValueView::Int(v)))
}

impl<'a> Txn<'a> {
    pub closed spec fn wf(&self) -> bool {
        self.base.wf() && self.writes.wf()
    }

    /// Begins a transaction on what the store holds now.
    pub fn begin(base: &'a Store) -> (r: Self)
        requires
            base.wf(),
        ensures
            r.wf(),
            r@ == (TxnView { base: base@, writes: Map::empty() }),
    {
        Txn { base, writes: KeyMap::new() }
    }

    fn load(&self, key: &Vec<u8>) -> (r: i64)
        requires
            self.wf(),
        ensures
            r == self@.number(key@),
    {
        match self.writes.get(key) {
            Some(v) => *v,
            None => match self.base.get(key) {
                Some(Value::Int(i)) => i,
                _ => 0,
            },
        }
    }

    fn save(&mut self, key: &Vec<u8>, v: i64)
        requires
            old(self).wf(),
        ensures
            final(self).wf(),
            final(self)@ == (TxnView {
                writes: old(self)@.writes.insert(key@, v),
                ..old(self)@
            }),
    {
        let mut k: Vec<u8> = Vec::new();
        push_all(&mut k, key.as_slice());
        proof {
            assert(k@ =~= key@);
        }
        self.writes.insert(k, v);
    }

    /// The writes, once the transaction reads no more.
    pub fn into_writes(self) -> (r: KeyMap<Vec<u8>, i64>)
        requires
            self.wf(),
        ensures
            r.wf(),
            r@ == self@.writes,
    {
        self.writes
    }
}

/// Puts the writes of a transaction into a store.
pub fn commit(writes: &KeyMap<Vec<u8>, i64>, target: &mut Store)
    requires
        writes.wf(),
        old(target).wf(),
    ensures
        final(target).wf(),
        final(target)@ == committed(old(target)@, writes@),
{
    let ghost start = target@;
    let ghost list = writes.list();
    let mut i: usize = 0;
    proof {
        assert(committed(start, crate::maps::as_map(list.take(0))) =~= start);
    }
    while i < writes.len()
        invariant
            writes.wf(),
            target.wf(),
            list == writes.list(),
            i <= list.len(),
            target@ == committed(start, crate::maps::as_map(list.take(i as int))),
        decreases list.len() - i,
    {
        let e = writes.at(i);
        let mut k: Vec<u8> = Vec::new();
        push_all(&mut k, e.0.as_slice());
        proof {
            assert(k@ =~= e.0@);
            lemma_map_push(list, i as int);
        }
        let v: i64 = e.1;
        target.put(k, Value::Int(v));
        proof {
            assert(target@ =~= committed(start, crate::maps::as_map(list.take(i + 1))));
        }
        i = i + 1;
    }
    proof {
        assert(list.take(i as int) =~= list);
    }
}

proof fn lemma_map_push(list: Seq<(Vec<u8>, i64)>, i: int)
    requires
        crate::maps::distinct_keys(list),
        0 <= i < list.len(),
    ensures
        crate::maps::as_map(list.take(i + 1)) == crate::maps::as_map(list.take(i)).insert(
            list[i].0@,
            list[i].1,
        ),
{
    let s = list.take(i);
    let t = list.take(i + 1);
    assert(crate::maps::distinct_keys(t)) by {
        assert forall|a: int, b: int| 0 <= a < b < t.len() implies #[trigger] t[a].0@
            != #[trigger] t[b].0@ by {
            assert(list[a].0@ != list[b].0@);
        }
    }
    assert(crate::maps::distinct_keys(s)) by {
        assert forall|a: int, b: int| 0 <= a < b < s.len() implies #[trigger] s[a].0@
            != #[trigger] s[b].0@ by {
            assert(list[a].0@ != list[b].0@);
        }
    }
    let want = crate::maps::as_map(s).insert(list[i].0@, list[i].1);
    assert forall|q: Seq<u8>|
        #![trigger crate::maps::as_map(t).dom().contains(q)]
        #![trigger crate::maps::as_map(t)[q]]
        crate::maps::as_map(t).dom().contains(q) == want.dom().contains(q) && (
        crate::maps::as_map(t).dom().contains(q) ==> crate::maps::as_map(t)[q] == want[q]) by {
        crate::maps::lemma_entry(t, i);
        if crate::maps::as_map(s).contains_key(q) {
            crate::maps::lemma_key(s, q);
            let p = crate::maps::place_of(s, q);
            assert(t[p] == s[p]);
            crate::maps::lemma_entry(t, p);
        }
        if crate::maps::as_map(t).contains_key(q) {
            crate::maps::lemma_key(t, q);
            let p = crate::maps::place_of(t, q);
            if p < i {
                assert(t[p] == s[p]);
                crate::maps::lemma_entry(s, p);
            }
        }
    }
    assert(crate::maps::as_map(t) =~= want);
}

/// The machine between two instructions.
pub struct Machine {
    pub pc: int,
    pub stack: Seq<i64>,
    pub fuel: nat,
    pub txn: TxnView,
}

/// The end of a run: the stack, fuel and transaction it left, and its outcome.
pub struct Halt {
    pub stack: Seq<i64>,
    pub fuel: nat,
    pub txn: TxnView,
    pub outcome: Result<Option<i64>, VmErrorView>,
}

pub open spec fn halted(m: Machine, outcome: Result<Option<i64>, VmErrorView>) -> Halt {
    Halt { stack: m.stack, fuel: m.fuel, txn: m.txn, outcome }
}

/// One instruction, for which the machine has already paid one unit of fuel.
pub open spec fn step(i: InstrView, m: Machine) -> Result<Machine, Halt> {
    let n = m.stack.len();
    let next = Machine { pc: m.pc + 1, ..m };
    let under = |s: Seq<i64>|
        Err::<Machine, Halt>(
            halted(Machine { stack: s, ..m }, Err(VmErrorView::StackUnderflow)),
        );
    match i {
        InstrView::PushInt(v) => Ok(Machine { stack: m.stack.push(v), ..next }),
        InstrView::Pop => if n < 1 {
            under(m.stack)
        } else {
            Ok(Machine { stack: m.stack.drop_last(), ..next })
        },
        InstrView::Dup => if n < 1 {
            under(m.stack)
        } else {
            Ok(Machine { stack: m.stack.push(m.stack.last()), ..next })
        },
        InstrView::Add => if n < 2 {
            under(Seq::empty())
        } else {
            Ok(
                Machine {
                    stack: m.stack.take(n - 2).push(m.stack[n - 2].wrapping_add(m.stack[n - 1])),
                    ..next
                },
            )
        },
        InstrView::Sub => if n < 2 {
            under(Seq::empty())
        } else {
            Ok(
                Machine {
                    stack: m.stack.take(n - 2).push(m.stack[n - 2].wrapping_sub(m.stack[n - 1])),
                    ..next
                },
            )
        },
        InstrView::Mul => if n < 2 {
            under(Seq::empty())
        } else {
            Ok(
                Machine {
                    stack: m.stack.take(n - 2).push(m.stack[n - 2].wrapping_mul(m.stack[n - 1])),
                    ..next
                },
            )
        },
        InstrView::LoadInt(key) => if m.fuel < 10 {
            Err(halted(m, Err(VmErrorView::OutOfFuel)))
        } else {
            Ok(
                Machine {
                    stack: m.stack.push(m.txn.number(key)),
                    fuel: (m.fuel - 10) as nat,
                    ..next
                },
            )
        },
        InstrView::StoreInt(key) => if m.fuel < 10 {
            Err(halted(m, Err(VmErrorView::OutOfFuel)))
        } else if n < 1 {
            Err(
                halted(
                    Machine { fuel: (m.fuel - 10) as nat, ..m },
                    Err(VmErrorView::StackUnderflow),
                ),
            )
        } else {
            Ok(
                Machine {
                    stack: m.stack.drop_last(),
                    fuel: (m.fuel - 10) as nat,
                    txn: TxnView {
                        writes: m.txn.writes.insert(key, m.stack.last()),
                        ..m.txn
                    },
                    ..next
                },
            )
        },
        InstrView::Jump(t) => Ok(Machine { pc: t, ..m }),
        InstrView::JumpIfZero(t) => if n < 1 {
            under(m.stack)
        } else {
            Ok(
                Machine {
                    stack: m.stack.drop_last(),
                    pc: if m.stack.last() == 0 {
                        t
                    } else {
                        m.pc + 1
                    },
                    ..m
                },
            )
        },
        InstrView::Return => if n < 1 {
            Err(halted(m, Ok(None)))
        } else {
            Err(
                halted(
                    Machine { stack: m.stack.drop_last(), ..m },
                    Ok(Some(m.stack.last())),
                ),
            )
        },
        InstrView::Trap(msg) => Err(halted(m, Err(VmErrorView::Trap(msg)))),
    }
}

/// A run: every instruction is paid for before it is looked up.
pub open spec fn run_from(prog: Seq<InstrView>, m: Machine) -> Halt
    decreases m.fuel,
{
    if m.fuel < 1 {
        halted(m, Err(VmErrorView::OutOfFuel))
    } else {
        let paid = Machine { fuel: (m.fuel - 1) as nat, ..m };
        if !(0 <= m.pc < prog.len()) {
            halted(paid, Err(VmErrorView::BadJump(m.pc)))
        } else {
            match step(prog[m.pc], paid) {
                Err(h) => h,
                Ok(next) => if next.fuel < m.fuel {
                    run_from(prog, next)
                } else {
                    halted(paid, Err(VmErrorView::OutOfFuel))
                },
            }
        }
    }
}

/// The machine of one invocation.
pub struct Vm {
    stack: Vec<i64>,
    fuel: u64,
    fuel_budget: u64,
}

impl Vm {
    pub closed spec fn stack(&self) -> Seq<i64> {
        self.stack@
    }

    pub closed spec fn fuel(&self) -> u64 {
        self.fuel
    }

    pub closed spec fn budget(&self) -> u64 {
        self.fuel_budget
    }

    /// The fuel left is never more than the budget.
    pub open spec fn wf(&self) -> bool {
        self.fuel() <= self.budget()
    }

    pub fn new(fuel_budget: u64) -> (r: Self)
        ensures
            r.wf(),
            r.stack() == Seq::<i64>::empty(),
            r.fuel() == fuel_budget,
            r.budget() == fuel_budget,
    {
        Vm { stack: Vec::new(), fuel: fuel_budget, fuel_budget }
    }

    pub fn fuel_used(&self) -> (r: u64)
        requires
            self.wf(),
        ensures
            r == self.budget() - self.fuel(),
    {
        self.fuel_budget - self.fuel
    }

    /// Pays for an instruction, unless there is not enough fuel.
    pub fn burn(&mut self, cost: u64) -> (r: Result<(), VmError>)
        ensures
            final(self).stack() == old(self).stack(),
            final(self).budget() == old(self).budget(),
            match r {
                Ok(_) => old(self).fuel() >= cost && final(self).fuel() == old(self).fuel() - cost,
                Err(e) => old(self).fuel() < cost && final(self).fuel() == old(self).fuel()
                    && e is OutOfFuel,
            },
    {
        if self.fuel < cost {
            return Err(VmError::OutOfFuel);
        }
        self.fuel = self.fuel - cost;
        Ok(())
    }

    /// Takes the top of the stack.
    pub fn pop(&mut self) -> (r: Result<i64, VmError>)
        ensures
            final(self).fuel() == old(self).fuel(),
            final(self).budget() == old(self).budget(),
            match r {
                Ok(v) => old(self).stack().len() > 0 && v == old(self).stack().last()
                    && final(self).stack() == old(self).stack().drop_last(),
                Err(e) => old(self).stack().len() == 0 && final(self).stack() == old(self).stack()
                    && e is StackUnderflow,
            },
    {
        match self.stack.pop() {
            Some(v) => Ok(v),
            None => Err(VmError::StackUnderflow),
        }
    }

    /// Runs the program against a transaction: `Some(output)` where it returned one.
    pub fn run(&mut self, prog: &Program, txn: &mut Txn) -> (r: Result<Option<i64>, VmError>)
        requires
            old(self).wf(),
            old(txn).wf(),
        ensures
            final(self).wf(),
            final(txn).wf(),
            final(self).budget() == old(self).budget(),
            ({
                let h = run_from(
                    prog@,
                    (Machine {
                        pc: 0,
                        stack: old(self).stack(),
                        fuel: old(self).fuel() as nat,
                        txn: old(txn)@,
                    }),
                );
                &&& final(self).stack() == h.stack
                &&& final(self).fuel() == h.fuel
                &&& final(txn)@ == h.txn
                &&& match r {
                    Ok(v) => h.outcome == Ok::<Option<i64>, VmErrorView>(v),
                    Err(e) => h.outcome == Err::<Option<i64>, VmErrorView>(e@),
                }
            }),
    {
        let mut pc: usize = 0;
        let ghost want = run_from(
            prog@,
            Machine { pc: 0, stack: self.stack@, fuel: self.fuel as nat, txn: txn@ },
        );
        loop
            invariant
                self.wf(),
                txn.wf(),
                self.fuel_budget == old(self).fuel_budget,
                want == run_from(
                    prog@,
                    (Machine {
                        pc: pc as int,
                        stack: self.stack@,
                        fuel: self.fuel as nat,
                        txn: txn@,
                    }),
                ),
                want == run_from(
                    prog@,
                    (Machine {
                        pc: 0,
                        stack: old(self).stack@,
                        fuel: old(self).fuel as nat,
                        txn: old(txn)@,
                    }),
                ),
            decreases self.fuel,
        {
            match self.burn(1) {
                Err(e) => {
                    return Err(e);
                },
                Ok(_) => {},
            }
            if pc >= prog.instrs.len() {
                return Err(VmError::BadJump(pc));
            }
            let ghost paid = Machine {
                pc: pc as int,
                stack: self.stack@,
                fuel: self.fuel as nat,
                txn: txn@,
            };
            assert(prog@[pc as int] == prog.instrs@[pc as int]@);
            match &prog.instrs[pc] {
                Instr::PushInt(v) => {
                    self.stack.push(*v);
                    pc = pc + 1;
                },
                Instr::Pop => {
                    match self.pop() {
                        Err(e) => {
                            return Err(e);
                        },
                        Ok(_) => {},
                    }
                    pc = pc + 1;
                },
                Instr::Dup => {
                    if self.stack.len() == 0 {
                        return Err(VmError::StackUnderflow);
                    }
                    let v: i64 = self.stack[self.stack.len() - 1];
                    self.stack.push(v);
                    pc = pc + 1;
                },
                Instr::Add => {
                    let (a, b) = match self.pop_two() {
                        Err(e) => {
                            return Err(e);
                        },
                        Ok(x) => x,
                    };
                    self.stack.push(a.wrapping_add(b));
                    pc = pc + 1;
                },
                Instr::Sub => {
                    let (a, b) = match self.pop_two() {
                        Err(e) => {
                            return Err(e);
                        },
                        Ok(x) => x,
                    };
                    self.stack.push(a.wrapping_sub(b));
                    pc = pc + 1;
                },
                Instr::Mul => {
                    let (a, b) = match self.pop_two() {
                        Err(e) => {
                            return Err(e);
                        },
                        Ok(x) => x,
                    };
                    self.stack.push(a.wrapping_mul(b));
                    pc = pc + 1;
                },
                Instr::LoadInt(key) => {
                    match self.burn(10) {
                        Err(e) => {
                            return Err(e);
                        },
                        Ok(_) => {},
                    }
                    self.stack.push(txn.load(key));
                    pc = pc + 1;
                },
                Instr::StoreInt(key) => {
                    match self.burn(10) {
                        Err(e) => {
                            return Err(e);
                        },
                        Ok(_) => {},
                    }
                    let v: i64 = match self.pop() {
                        Err(e) => {
                            return Err(e);
                        },
                        Ok(v) => v,
                    };
                    txn.save(key, v);
                    pc = pc + 1;
                },
                Instr::Jump(t) => {
                    pc = *t;
                },
                Instr::JumpIfZero(t) => {
                    let v: i64 = match self.pop() {
                        Err(e) => {
                            return Err(e);
                        },
                        Ok(v) => v,
                    };
                    if v == 0 {
                        pc = *t;
                    } else {
                        pc = pc + 1;
                    }
                },
                Instr::Return => {
                    return Ok(self.stack.pop());
                },
                Instr::Trap(m) => {
                    return Err(VmError::Trap(m.clone()));
                },
            }
        }
    }

    /// Takes the two topmost numbers, the deeper one first.
    fn pop_two(&mut self) -> (r: Result<(i64, i64), VmError>)
        ensures
            final(self).fuel() == old(self).fuel(),
            final(self).budget() == old(self).budget(),
            match r {
                Ok(p) => old(self).stack().len() >= 2 && p.0 == old(self).stack()[old(
                    self,
                ).stack().len() - 2] && p.1 == old(self).stack().last() && final(self).stack()
                    == old(self).stack().take(old(self).stack().len() - 2),
                Err(e) => old(self).stack().len() < 2 && final(self).stack()
                    == Seq::<i64>::empty() && e is StackUnderflow,
            },
    {
        let b: i64 = match self.pop() {
            Err(e) => {
                proof {
                    assert(self.stack@ =~= Seq::<i64>::empty());
                }
                return Err(e);
            },
            Ok(v) => v,
        };
        let a: i64 = match self.pop() {
            Err(e) => {
                proof {
                    assert(self.stack@ =~= Seq::<i64>::empty());
                }
                return Err(e);
            },
            Ok(v) => v,
        };
        proof {
            assert(self.stack@ =~= old(self).stack@.take(old(self).stack@.len() - 2));
        }
        Ok((a, b))
    }
}

/// A run never uses more fuel than it was given, and never touches the rows that the
/// transaction reads from.
pub proof fn law_run_is_metered(prog: Seq<InstrView>, m: Machine)
    ensures
        run_from(prog, m).fuel <= m.fuel,
        run_from(prog, m).txn.base == m.txn.base,
    decreases m.fuel,
{
    if m.fuel >= 1 && 0 <= m.pc < prog.len() {
        let paid = Machine { fuel: (m.fuel - 1) as nat, ..m };
        if let Ok(next) = step(prog[m.pc], paid) {
            if next.fuel < m.fuel {
                law_run_is_metered(prog, next);
            }
        }
    }
}

/// The machine after one instruction, unless the run ends there.
pub open spec fn advanced(prog: Seq<InstrView>, m: Machine) -> Option<Machine> {
    if m.fuel >= 1 && 0 <= m.pc < prog.len() {
        match step(prog[m.pc], Machine { fuel: (m.fuel - 1) as nat, ..m }) {
            Ok(next) => Some(next),
            Err(_) => None,
        }
    } else {
        None
    }
}

/// The machine after `k` instructions, unless the run ends before.
pub open spec fn after(prog: Seq<InstrView>, m: Machine, k: nat) -> Option<Machine>
    decreases k,
{
    if k == 0 {
        Some(m)
    } else {
        match advanced(prog, m) {
            Some(next) => after(prog, next, (k - 1) as nat),
            None => None,
        }
    }
}

/// Whether a run comes to a machine that can pay and stands at a `Return`, with `v` to give.
pub open spec fn gives(prog: Seq<InstrView>, m: Machine, k: nat, v: Option<i64>) -> bool {
    match after(prog, m, k) {
        Some(x) => x.fuel >= 1 && 0 <= x.pc < prog.len() && prog[x.pc] is Return && v == (
        if x.stack.len() == 0 {
            None
        } else {
            Some(x.stack.last())
        }),
        None => false,
    }
}

/// Whether a run comes to a machine that can pay and stands outside of the program, at `t`.
pub open spec fn strays(prog: Seq<InstrView>, m: Machine, k: nat, t: int) -> bool {
    match after(prog, m, k) {
        Some(x) => x.fuel >= 1 && x.pc == t && !(0 <= t < prog.len()),
        None => false,
    }
}

/// A result comes only from a `Return` that the run comes to, and is what lies on top of the
/// stack there; a bad jump comes only from standing outside of the program.
pub proof fn law_ends_have_causes(prog: Seq<InstrView>, m: Machine)
    ensures
        run_from(prog, m).outcome matches Ok(v) ==> exists|k: nat| gives(prog, m, k, v),
        run_from(prog, m).outcome matches Err(VmErrorView::BadJump(t)) ==> exists|k: nat|
            strays(prog, m, k, t),
    decreases m.fuel,
{
    match advanced(prog, m) {
        Some(next) => {
            law_ends_have_causes(prog, next);
            match run_from(prog, m).outcome {
                Ok(v) => {
                    let k = choose|k: nat| gives(prog, next, k, v);
                    assert(after(prog, m, k + 1) == after(prog, next, k));
                    assert(gives(prog, m, k + 1, v));
                },
                Err(VmErrorView::BadJump(t)) => {
                    let k = choose|k: nat| strays(prog, next, k, t);
                    assert(after(prog, m, k + 1) == after(prog, next, k));
                    assert(strays(prog, m, k + 1, t));
                },
                Err(_) => {},
            }
        },
        None => {
            assert(after(prog, m, 0) == Some(m));
            match run_from(prog, m).outcome {
                Ok(v) => {
                    assert(gives(prog, m, 0, v));
                },
                Err(VmErrorView::BadJump(t)) => {
                    assert(strays(prog, m, 0, t));
                },
                Err(_) => {},
            }
        },
    }
}

/// A run that comes to a `Return` gives its result, and one that leaves the program is given
/// up with the place it stood at.
pub proof fn law_causes_end_runs(prog: Seq<InstrView>, m: Machine, k: nat)
    ensures
        forall|v: Option<i64>| #[trigger]
            gives(prog, m, k, v) ==> run_from(prog, m).outcome == Ok::<
                Option<i64>,
                VmErrorView,
            >(v),
        forall|t: int| #[trigger]
            strays(prog, m, k, t) ==> run_from(prog, m).outcome == Err::<
                Option<i64>,
                VmErrorView,
            >(VmErrorView::BadJump(t)),
    decreases k,
{
    if k > 0 {
        if let Some(next) = advanced(prog, m) {
            law_causes_end_runs(prog, next, (k - 1) as nat);
            assert forall|v: Option<i64>| #[trigger] gives(prog, m, k, v) implies run_from(
                prog,
                m,
            ).outcome == Ok::<Option<i64>, VmErrorView>(v) by {
                assert(gives(prog, next, (k - 1) as nat, v));
            }
            assert forall|t: int| #[trigger] strays(prog, m, k, t) implies run_from(
                prog,
                m,
            ).outcome == Err::<Option<i64>, VmErrorView>(VmErrorView::BadJump(t)) by {
                assert(strays(prog, next, (k - 1) as nat, t));
            }
        }
    }
}

/// Only a `StoreInt` writes, and only at its key: what is written at any other stays.
pub proof fn law_only_stores_write(prog: Seq<InstrView>, m: Machine, key: Seq<u8>)
    requires
        forall|i: int| 0 <= i < prog.len() ==> (#[trigger] prog[i]) != InstrView::StoreInt(key),
    ensures
        run_from(prog, m).txn.writes.contains_key(key) == m.txn.writes.contains_key(key),
        m.txn.writes.contains_key(key) ==> run_from(prog, m).txn.writes[key] == m.txn.writes[key],
    decreases m.fuel,
{
    if let Some(next) = advanced(prog, m) {
        law_only_stores_write(prog, next, key);
    }
}

/// A jump to itself never ends but by running out of fuel, and writes nothing.
pub proof fn law_endless_loop_runs_out(prog: Seq<InstrView>, m: Machine)
    requires
        0 <= m.pc < prog.len(),
        prog[m.pc] == InstrView::Jump(m.pc),
    ensures
        run_from(prog, m).outcome == Err::<Option<i64>, VmErrorView>(VmErrorView::OutOfFuel),
        run_from(prog, m).txn == m.txn,
    decreases m.fuel,
{
    if m.fuel >= 1 {
        law_endless_loop_runs_out(prog, Machine { fuel: (m.fuel - 1) as nat, ..m });
    }
}

/// A run from its first instruction.
pub open spec fn started(prog: Seq<InstrView>, stack: Seq<i64>, fuel: nat, txn: TxnView) -> Halt {
    run_from(prog, Machine { pc: 0, stack, fuel, txn })
}

/// Two numbers that are pushed and added give their sum, or what differs from it by a multiple of
/// 2^64 where a word does not hold it. The run pays four units and leaves nothing behind.
pub proof fn law_sum(a: i64, b: i64, stack: Seq<i64>, fuel: nat, txn: TxnView)
    requires
        fuel >= 4,
    ensures
        ({
            let h = started(
                seq![
                    InstrView::PushInt(a),
                    InstrView::PushInt(b),
                    InstrView::Add,
                    InstrView::Return,
                ],
                stack,
                fuel,
                txn,
            );
            &&& h.outcome matches Ok(Some(v)) && (v - (a + b)) % 0x1_0000_0000_0000_0000 == 0 && (
            i64::MIN <= (a + b) <= i64::MAX ==> v == (a + b))
            &&& h.stack == stack
            &&& h.fuel == fuel - 4
            &&& h.txn == txn
        }),
{
    let v = a.wrapping_add(b);
    let s = stack.push(a).push(b);
    reveal_with_fuel(run_from, 5);
    assert(s.take(s.len() - 2) =~= stack);
    assert(s[s.len() - 2] == a && s[s.len() - 1] == b);
    assert(stack.push(v).drop_last() =~= stack);
}

/// Two numbers that are pushed and subtracted give the first less the second, or what differs from
/// it by a multiple of 2^64.
pub proof fn law_difference(a: i64, b: i64, stack: Seq<i64>, fuel: nat, txn: TxnView)
    requires
        fuel >= 4,
    ensures
        ({
            let h = started(
                seq![
                    InstrView::PushInt(a),
                    InstrView::PushInt(b),
                    InstrView::Sub,
                    InstrView::Return,
                ],
                stack,
                fuel,
                txn,
            );
            &&& h.outcome matches Ok(Some(v)) && (v - (a - b)) % 0x1_0000_0000_0000_0000 == 0 && (
            i64::MIN <= (a - b) <= i64::MAX ==> v == (a - b))
            &&& h.stack == stack
            &&& h.fuel == fuel - 4
            &&& h.txn == txn
        }),
{
    let v = a.wrapping_sub(b);
    let s = stack.push(a).push(b);
    reveal_with_fuel(run_from, 5);
    assert(s.take(s.len() - 2) =~= stack);
    assert(s[s.len() - 2] == a && s[s.len() - 1] == b);
    assert(stack.push(v).drop_last() =~= stack);
}

/// Two numbers that are pushed and multiplied give their product, or what differs from it by a
/// multiple of 2^64.
pub proof fn law_product(a: i64, b: i64, stack: Seq<i64>, fuel: nat, txn: TxnView)
    requires
        fuel >= 4,
    ensures
        ({
            let h = started(
                seq![
                    InstrView::PushInt(a),
                    InstrView::PushInt(b),
                    InstrView::Mul,
                    InstrView::Return,
                ],
                stack,
                fuel,
                txn,
            );
            &&& h.outcome matches Ok(Some(v)) && (v - (a * b)) % 0x1_0000_0000_0000_0000 == 0 && (
            i64::MIN <= (a * b) <= i64::MAX ==> v == (a * b))
            &&& h.stack == stack
            &&& h.fuel == fuel - 4
            &&& h.txn == txn
        }),
{
    let v = a.wrapping_mul(b);
    let s = stack.push(a).push(b);
    reveal_with_fuel(run_from, 5);
    assert(s.take(s.len() - 2) =~= stack);
    assert(s[s.len() - 2] == a && s[s.len() - 1] == b);
    assert(stack.push(v).drop_last() =~= stack);
}

/// A number that is duplicated lies on the stack twice; one that is popped leaves what was below
/// it.
pub proof fn law_duplicates_and_pops(a: i64, b: i64, stack: Seq<i64>, fuel: nat, txn: TxnView)
    requires
        fuel >= 4,
    ensures
        ({
            let h = started(
                seq![InstrView::PushInt(a), InstrView::Dup, InstrView::Pop, InstrView::Return],
                stack,
                fuel,
                txn,
            );
            let g = started(
                seq![
                    InstrView::PushInt(a),
                    InstrView::PushInt(b),
                    InstrView::Pop,
                    InstrView::Return,
                ],
                stack,
                fuel,
                txn,
            );
            let f = started(
                seq![InstrView::PushInt(a), InstrView::Dup, InstrView::Return],
                stack,
                fuel,
                txn,
            );
            &&& h.outcome == Ok::<Option<i64>, VmErrorView>(Some(a)) && h.stack == stack
            &&& g.outcome == Ok::<Option<i64>, VmErrorView>(Some(a)) && g.stack == stack
            &&& f.outcome == Ok::<Option<i64>, VmErrorView>(Some(a)) && f.stack == stack.push(a)
            &&& h.fuel == fuel - 4 && g.fuel == fuel - 4 && f.fuel == fuel - 3
            &&& h.txn == txn && g.txn == txn && f.txn == txn
        }),
{
    reveal_with_fuel(run_from, 5);
    assert(stack.push(a).push(a).drop_last() =~= stack.push(a));
    assert(stack.push(a).push(b).drop_last() =~= stack.push(a));
    assert(stack.push(a).drop_last() =~= stack);
}

/// What is stored at a key is loaded from it, and from no other: there the transaction's own
/// write stands, or else the number in the store, or else 0. Each access costs ten units more.
pub proof fn law_stores_are_loaded(
    v: i64,
    key: Seq<u8>,
    other: Seq<u8>,
    stack: Seq<i64>,
    fuel: nat,
    txn: TxnView,
)
    requires
        fuel >= 24,
    ensures
        ({
            let h = started(
                seq![
                    InstrView::PushInt(v),
                    InstrView::StoreInt(key),
                    InstrView::LoadInt(other),
                    InstrView::Return,
                ],
                stack,
                fuel,
                txn,
            );
            &&& h.outcome matches Ok(Some(x)) && {
                &&& other == key ==> x == v
                &&& other != key && txn.writes.contains_key(other) ==> x == txn.writes[other]
                &&& other != key && !txn.writes.contains_key(other) && txn.base.contains_key(other)
                    ==> (txn.base[other] matches store::ValueView::Int(n) ==> x == n)
                &&& other != key && !txn.writes.contains_key(other) && (!txn.base.contains_key(
                    other,
                ) || !(txn.base[other] is Int)) ==> x == 0
            }
            &&& h.txn.writes.contains_key(key) && h.txn.writes[key] == v
            &&& other != key ==> h.txn.writes.contains_key(other) == txn.writes.contains_key(other)
                && h.txn.writes[other] == txn.writes[other]
            &&& h.txn.base == txn.base
            &&& h.stack == stack
            &&& h.fuel == fuel - 24
        }),
{
    reveal_with_fuel(run_from, 5);
    assert(stack.push(v).drop_last() =~= stack);
    let wrote = TxnView { writes: txn.writes.insert(key, v), ..txn };
    assert(stack.push(wrote.number(other)).drop_last() =~= stack);
}

/// A conditional jump is taken where the number on top is zero, and only there; it takes that
/// number off the stack. A plain jump is always taken.
pub proof fn law_branches(c: i64, a: i64, b: i64, stack: Seq<i64>, fuel: nat, txn: TxnView)
    requires
        fuel >= 5,
    ensures
        ({
            let h = started(
                seq![
                    InstrView::PushInt(c),
                    InstrView::JumpIfZero(5),
                    InstrView::PushInt(a),
                    InstrView::Return,
                    InstrView::Trap(Seq::empty()),
                    InstrView::PushInt(b),
                    InstrView::Return,
                ],
                stack,
                fuel,
                txn,
            );
            let j = started(
                seq![
                    InstrView::Jump(2),
                    InstrView::Trap(Seq::empty()),
                    InstrView::PushInt(a),
                    InstrView::Return,
                ],
                stack,
                fuel,
                txn,
            );
            &&& h.outcome == Ok::<Option<i64>, VmErrorView>(
                Some(
                    if c == 0 {
                        b
                    } else {
                        a
                    },
                ),
            )
            &&& h.stack == stack && h.txn == txn && h.fuel == fuel - 4
            &&& j.outcome == Ok::<Option<i64>, VmErrorView>(Some(a))
            &&& j.stack == stack && j.txn == txn && j.fuel == fuel - 3
        }),
{
    reveal_with_fuel(run_from, 6);
    assert(stack.push(c).drop_last() =~= stack);
    assert(stack.push(a).drop_last() =~= stack);
    assert(stack.push(b).drop_last() =~= stack);
}

/// A trap gives the run up with its own words, and a return from an empty stack gives nothing.
pub proof fn law_traps_and_empty_returns(words: Seq<char>, stack: Seq<i64>, fuel: nat, txn: TxnView)
    requires
        fuel >= 1,
    ensures
        ({
            let h = started(seq![InstrView::Trap(words)], stack, fuel, txn);
            &&& h.outcome == Err::<Option<i64>, VmErrorView>(VmErrorView::Trap(words))
            &&& h.txn == txn && h.fuel == fuel - 1
        }),
        ({
            let h = started(seq![InstrView::Return], Seq::empty(), fuel, txn);
            &&& h.outcome == Ok::<Option<i64>, VmErrorView>(None)
            &&& h.txn == txn && h.fuel == fuel - 1
        }),
{
}

/// Whether an instruction takes more numbers off the stack than lie on it.
pub open spec fn starves(i: InstrView, n: nat) -> bool {
    match i {
        InstrView::Add | InstrView::Sub | InstrView::Mul => n < 2,
        InstrView::Pop | InstrView::Dup | InstrView::StoreInt(_) | InstrView::JumpIfZero(_) => n
            < 1,
        _ => false,
    }
}

/// An instruction that asks for more numbers than the stack holds gives the run up, and writes
/// nothing; one that has them does not end the run for want of numbers. A machine without a unit
/// of fuel does nothing at all.
pub proof fn law_short_stacks_and_tanks(prog: Seq<InstrView>, m: Machine)
    requires
        0 <= m.pc < prog.len(),
    ensures
        m.fuel >= 11 && starves(prog[m.pc], m.stack.len()) ==> run_from(prog, m).outcome == Err::<
            Option<i64>,
            VmErrorView,
        >(VmErrorView::StackUnderflow) && run_from(prog, m).txn == m.txn,
        m.fuel == 0 ==> run_from(prog, m) == halted(m, Err(VmErrorView::OutOfFuel)),
        !starves(prog[m.pc], m.stack.len()) && m.fuel >= 11 && !(prog[m.pc] is Return)
            && !(prog[m.pc] is Trap) ==> advanced(prog, m) is Some,
{
}

/// Committing puts every write of a transaction into the store as a number, and touches no other
/// key.
pub proof fn law_commit_takes_the_writes(
    s: Map<Seq<u8>, store::ValueView>,
    writes: Map<Seq<u8>, i64>,
    key: Seq<u8>,
)
    ensures
        writes.contains_key(key) ==> committed(s, writes).contains_key(key) && committed(
            s,
            writes,
        )[key] == store::ValueView::Int(writes[key]),
        !writes.contains_key(key) ==> committed(s, writes).contains_key(key) == s.contains_key(key)
            && (s.contains_key(key) ==> committed(s, writes)[key] == s[key]),
{
}

} // verus!
