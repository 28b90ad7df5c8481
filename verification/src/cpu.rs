use vstd::prelude::*;
use vstd::string::StringSliceAdditionalSpecFns;

use crate::ops::{Op, COMPRESS, lemma_wm_jnz, lemma_wm_jz, parsable, program, well_matched};

verus! {

/// Number of memory cells of the interpreter.
pub const MAX_MEM: usize = 1024;

/// Number of steps after which `exec_source` stops a program that has not
/// halted.
pub const STEP_LIMIT: u64 = 0xffff_ffff_ffff_ffff;

/// The interpreter: memory cells, the program, the position of the next
/// instruction (`ip`) and of the current cell (`head`).
pub struct Cpu {
    memory: Vec<u8>,
    ops: Vec<Op>,
    ip: usize,
    head: usize,
    jit: bool,
}

/// The state of a `Cpu` as plain values.
pub struct CpuState {
    pub memory: Seq<u8>,
    pub ops: Seq<Op>,
    pub ip: int,
    pub head: int,
    pub jit: bool,
}

impl View for Cpu {
    type V = CpuState;

    closed spec fn view(&self) -> CpuState {
        CpuState {
            memory: self.memory@,
            ops: self.ops@,
            ip: self.ip as int,
            head: self.head as int,
            jit: self.jit,
        }
    }
}

/// What the outside world has to do after a step.
#[derive(Clone, Copy, Debug, PartialEq, Eq, Structural)]
pub enum Effect {
    /// Nothing.
    Nothing,
    /// Print `byte`, as a character, `count` times.
    Output { byte: u8, count: u32 },
    /// Read `count` bytes, storing each in the current cell (`Cpu::write_cell`).
    Input { count: u32 },
}

/// How a bounded run ended.
#[derive(Clone, Copy, Debug, PartialEq, Eq, Structural)]
pub enum Status {
    /// The program ran past its last instruction.
    Halted,
    /// The next step would index outside the program or the memory, or
    /// overflow (the step on which the interpreter would panic).
    Fault,
    /// The step budget was used up first.
    OutOfFuel,
}

/// What a bounded run produced: every byte printed, and how it ended.
pub struct RunResult {
    pub output: Vec<u8>,
    pub status: Status,
}

// ---------------------------------------------------------------------------
// The machine, as a function from state to state
// ---------------------------------------------------------------------------

/// The state of a fresh machine: all cells zero, at the first instruction.
pub open spec fn initial_state(ops: Seq<Op>, jit: bool) -> CpuState {
    CpuState { memory: Seq::new(MAX_MEM as nat, |i: int| 0u8), ops, ip: 0, head: 0, jit }
}

/// Whether the next step can be taken without panicking: the instruction
/// pointer is in the program, the cell read or written is in memory, and no
/// position overflows.
pub open spec fn step_allowed(s: CpuState) -> bool {
    &&& 0 <= s.ip < s.ops.len()
    &&& 0 <= s.head
    &&& match s.ops[s.ip] {
        Op::Left(_) => true,
        Op::Right(n) => s.head + n <= usize::MAX,
        Op::Jz(a) => s.head < s.memory.len() && (s.memory[s.head] == 0 ==> a < usize::MAX),
        Op::Jnz(a) => s.head < s.memory.len() && (s.memory[s.head] != 0 ==> a < usize::MAX),
        _ => s.head < s.memory.len(),
    }
}

pub open spec fn with_cell(s: CpuState, v: u8) -> CpuState {
    CpuState { memory: s.memory.update(s.head, v), ..s }
}

pub open spec fn at_ip(s: CpuState, ip: int) -> CpuState {
    CpuState { ip, ..s }
}

/// One step: the new state, what the outside world has to do, and whether
/// the machine keeps running (it stops when it moves past the last
/// instruction, except right after a `Jnz` jump back).
pub open spec fn step_spec(s: CpuState) -> (CpuState, Effect, bool) {
    let cell = s.memory[s.head];
    let next = s.ip + 1;
    let len = s.ops.len();
    match s.ops[s.ip] {
        Op::Dec(n) => (
            at_ip(with_cell(s, ((cell - n) % 256) as u8), next),
            Effect::Nothing,
            next < len,
        ),
        Op::Inc(n) => (
            at_ip(with_cell(s, ((cell + n) % 256) as u8), next),
            Effect::Nothing,
            next < len,
        ),
        Op::Left(n) => (
            CpuState {
                head: if s.head >= n {
                    s.head - n
                } else {
                    0
                },
                ip: next,
                ..s
            },
            Effect::Nothing,
            next < len,
        ),
        Op::Right(n) => (CpuState { head: s.head + n, ip: next, ..s }, Effect::Nothing, next < len),
        Op::Out(n) => (at_ip(s, next), Effect::Output { byte: cell, count: n }, next < len),
        Op::In(n) => (at_ip(s, next), Effect::Input { count: n }, next < len),
        Op::Jz(a) => if cell == 0 {
            (at_ip(s, a + 1), Effect::Nothing, a + 1 < len)
        } else {
            (at_ip(s, next), Effect::Nothing, next < len)
        },
        Op::Jnz(a) => if cell != 0 {
            (at_ip(s, a + 1), Effect::Nothing, true)
        } else {
            (at_ip(s, next), Effect::Nothing, next < len)
        },
    }
}

/// Reads `n` bytes from `inp` into the current cell, each read replacing
/// the last; a read past the end of the input gives 0. Returns the new state
/// and the input left.
pub open spec fn read_input(s: CpuState, n: nat, inp: Seq<u8>) -> (CpuState, Seq<u8>) {
    if n == 0 {
        (s, inp)
    } else if n <= inp.len() {
        (with_cell(s, inp[n - 1]), inp.skip(n as int))
    } else {
        (with_cell(s, 0), inp.skip(inp.len() as int))
    }
}

/// Carries out an effect against a given input: the new state, the input
/// left, and the bytes printed.
pub open spec fn perform(s: CpuState, e: Effect, inp: Seq<u8>) -> (CpuState, Seq<u8>, Seq<u8>) {
    match e {
        Effect::Nothing => (s, inp, Seq::empty()),
        Effect::Output { byte, count } => (s, inp, Seq::new(count as nat, |i: int| byte)),
        Effect::Input { count } => {
            let r = read_input(s, count as nat, inp);
            (r.0, r.1, Seq::empty())
        },
    }
}

/// Runs at most `fuel` steps, reading from `inp`: the final state, every
/// byte printed, and how the run ended.
pub open spec fn run_spec(s: CpuState, inp: Seq<u8>, fuel: nat) -> (CpuState, Seq<u8>, Status)
    decreases fuel,
{
    if fuel == 0 {
        (s, Seq::empty(), Status::OutOfFuel)
    } else if !step_allowed(s) {
        (s, Seq::empty(), Status::Fault)
    } else {
        let st = step_spec(s);
        let p = perform(st.0, st.1, inp);
        if st.2 {
            let r = run_spec(p.0, p.1, (fuel - 1) as nat);
            (r.0, p.2 + r.1, r.2)
        } else {
            (p.0, p.2, Status::Halted)
        }
    }
}


// ---------------------------------------------------------------------------
// Laws of the machine
// ---------------------------------------------------------------------------

/// A step changes neither the program nor the number of memory cells.
pub proof fn lemma_step_keeps_program_and_memory_size(s: CpuState)
    requires
        step_allowed(s),
    ensures
        step_spec(s).0.ops == s.ops,
        step_spec(s).0.memory.len() == s.memory.len(),
{
}

/// Neither does a run, whatever its input.
pub proof fn lemma_run_keeps_program_and_memory_size(s: CpuState, inp: Seq<u8>, fuel: nat)
    ensures
        run_spec(s, inp, fuel).0.ops == s.ops,
        run_spec(s, inp, fuel).0.memory.len() == s.memory.len(),
    decreases fuel,
{
    if fuel > 0 && step_allowed(s) {
        let st = step_spec(s);
        let p = perform(st.0, st.1, inp);
        if st.2 {
            lemma_run_keeps_program_and_memory_size(p.0, p.1, (fuel - 1) as nat);
        }
    }
}

/// In a well-matched program a jump never overflows, and a step that keeps
/// the machine running leaves the instruction pointer inside the program:
/// only a cell outside the memory (or a move right that overflows) can
/// stop it short.
pub proof fn lemma_well_matched_steps(s: CpuState)
    requires
        well_matched(s.ops),
        s.ops.len() <= usize::MAX,
        0 <= s.ip < s.ops.len(),
        0 <= s.head < s.memory.len(),
    ensures
        !(s.ops[s.ip] is Right) ==> step_allowed(s),
        step_allowed(s) && step_spec(s).2 ==> 0 <= step_spec(s).0.ip < s.ops.len(),
{
    if s.ops[s.ip] is Jz {
        lemma_wm_jz(s.ops, s.ip);
    }
    if s.ops[s.ip] is Jnz {
        lemma_wm_jnz(s.ops, s.ip);
    }
}


/// A cell after `k` increments by one, 255 going to 0.
pub open spec fn add_ones(c: u8, k: nat) -> u8
    decreases k,
{
    if k == 0 {
        c
    } else {
        let d = add_ones(c, (k - 1) as nat);
        if d == 255 {
            0
        } else {
            (d + 1) as u8
        }
    }
}

/// A cell after `k` decrements by one, 0 going to 255.
pub open spec fn sub_ones(c: u8, k: nat) -> u8
    decreases k,
{
    if k == 0 {
        c
    } else {
        let d = sub_ones(c, (k - 1) as nat);
        if d == 0 {
            255
        } else {
            (d - 1) as u8
        }
    }
}

proof fn lemma_add_ones(c: u8, k: nat)
    ensures
        add_ones(c, k) == (c + k) % 256,
    decreases k,
{
    if k > 0 {
        lemma_add_ones(c, (k - 1) as nat);
    }
}

proof fn lemma_sub_ones(c: u8, k: nat)
    ensures
        sub_ones(c, k) == (c - k) % 256,
    decreases k,
{
    if k > 0 {
        lemma_sub_ones(c, (k - 1) as nat);
    }
}

/// `Inc(n)` is `n` increments of the current cell by one and `Dec(n)` is
/// `n` decrements, with wrap-around; nothing else in memory changes, and
/// the machine moves to the next instruction.
pub proof fn lemma_inc_dec_count(s: CpuState)
    requires
        step_allowed(s),
        s.ops[s.ip] is Inc || s.ops[s.ip] is Dec,
    ensures
        step_spec(s).0 == at_ip(
            with_cell(
                s,
                if s.ops[s.ip] is Inc {
                    add_ones(s.memory[s.head], s.ops[s.ip]->Inc_0 as nat)
                } else {
                    sub_ones(s.memory[s.head], s.ops[s.ip]->Dec_0 as nat)
                },
            ),
            s.ip + 1,
        ),
        step_spec(s).1 == Effect::Nothing,
{
    let c = s.memory[s.head];
    if s.ops[s.ip] is Inc {
        lemma_add_ones(c, s.ops[s.ip]->Inc_0 as nat);
    } else {
        lemma_sub_ones(c, s.ops[s.ip]->Dec_0 as nat);
    }
}


/// What each kind of instruction does in one step, apart from `Inc`/`Dec`
/// (see `lemma_inc_dec_count`): moves change only the head (a move left
/// stops at the first cell), `Out` reports the current cell and its count,
/// `In` asks for its count of bytes, jumps change only the instruction
/// pointer; every other instruction goes on with the next one, and the
/// machine keeps running while the instruction pointer is in the program
/// (a jump back always keeps it running). The program never changes.
pub proof fn lemma_step_effects(s: CpuState)
    requires
        step_allowed(s),
    ensures
        ({
            let t = step_spec(s).0;
            let e = step_spec(s).1;
            let running = step_spec(s).2;
            let op = s.ops[s.ip];
            let cell = s.memory[s.head];
            &&& t.ops == s.ops && t.jit == s.jit
            &&& op is Right ==> t.head == s.head + op->Right_0 && t.memory == s.memory && t.ip
                == s.ip + 1 && e == Effect::Nothing
            &&& op is Left ==> 0 <= t.head <= s.head && (t.head == 0 || t.head == s.head
                - op->Left_0) && t.head >= s.head - op->Left_0 && t.memory == s.memory && t.ip
                == s.ip + 1 && e == Effect::Nothing
            &&& op is Out ==> t.head == s.head && t.memory == s.memory && t.ip == s.ip + 1 && e
                == Effect::Output { byte: cell, count: op->Out_0 }
            &&& op is In ==> t.head == s.head && t.memory == s.memory && t.ip == s.ip + 1 && e
                == Effect::Input { count: op->In_0 }
            &&& op is Jz ==> t.head == s.head && t.memory == s.memory && e == Effect::Nothing && t.ip
                == if cell == 0 {
                op->Jz_0 + 1
            } else {
                s.ip + 1
            }
            &&& op is Jnz ==> t.head == s.head && t.memory == s.memory && e == Effect::Nothing
                && t.ip == if cell != 0 {
                op->Jnz_0 + 1
            } else {
                s.ip + 1
            }
            &&& running == (t.ip < s.ops.len() || (op is Jnz && cell != 0))
        }),
{
}

/// In a well-matched program, `Jz` on a zero cell goes on just after the
/// `Jnz` that closes its loop, and `Jnz` on a non-zero cell goes back to
/// just after the `Jz` that opens it.
pub proof fn lemma_jumps_follow_loops(s: CpuState)
    requires
        step_allowed(s),
        well_matched(s.ops),
        s.ops.len() <= usize::MAX,
        s.ops[s.ip] is Jz || s.ops[s.ip] is Jnz,
    ensures
        ({
            let t = step_spec(s).0;
            let cell = s.memory[s.head];
            &&& (s.ops[s.ip] is Jz && cell == 0) ==> s.ip < t.ip - 1 && s.ops[t.ip - 1] == Op::Jnz(
                s.ip as usize,
            )
            &&& (s.ops[s.ip] is Jnz && cell != 0) ==> t.ip - 1 < s.ip && s.ops[t.ip - 1] == Op::Jz(
                s.ip as usize,
            )
        }),
{
    if s.ops[s.ip] is Jz {
        lemma_wm_jz(s.ops, s.ip);
    } else {
        lemma_wm_jnz(s.ops, s.ip);
    }
}

/// Reading `n` bytes leaves the last one read in the current cell, a read
/// past the end of the input giving 0; it consumes `n` bytes of input (or
/// all that are left) and changes no other cell.
pub proof fn lemma_read_input(s: CpuState, n: nat, inp: Seq<u8>)
    requires
        0 <= s.head < s.memory.len(),
    ensures
        ({
            let r = read_input(s, n, inp);
            &&& r.0.ops == s.ops && r.0.ip == s.ip && r.0.head == s.head
            &&& r.0.memory.len() == s.memory.len()
            &&& forall|i: int| 0 <= i < s.memory.len() && i != s.head ==> r.0.memory[i] == s.memory[i]
            &&& r.0.memory[s.head] == if n == 0 {
                s.memory[s.head]
            } else if n <= inp.len() {
                inp[n - 1]
            } else {
                0u8
            }
            &&& r.1 == inp.skip(if n <= inp.len() {
                n as int
            } else {
                inp.len() as int
            })
        }),
{
}

/// An output step prints the current cell as many times as its count, and
/// input steps print nothing.
pub proof fn lemma_perform_output(s: CpuState, e: Effect, inp: Seq<u8>)
    ensures
        perform(s, e, inp).2.len() == match e {
            Effect::Output { byte, count } => count as int,
            _ => 0,
        },
        forall|i: int|
            0 <= i < perform(s, e, inp).2.len() ==> perform(s, e, inp).2[i] == e->Output_byte,
{
}

/// Adding `n` to a cell and then taking `n` away leaves it as it was.
pub proof fn lemma_inc_then_dec(s: CpuState, n: u32)
    requires
        0 <= s.ip,
        s.ip + 1 < s.ops.len(),
        s.ops[s.ip] == Op::Inc(n),
        s.ops[s.ip + 1] == Op::Dec(n),
        0 <= s.head < s.memory.len(),
    ensures
        step_allowed(s),
        step_allowed(step_spec(s).0),
        step_spec(step_spec(s).0).0 == at_ip(s, s.ip + 2),
{
    let s1 = step_spec(s).0;
    let s2 = step_spec(s1).0;
    let c = s.memory[s.head];
    let c1 = ((c + n) % 256) as u8;
    assert(s1.memory[s.head] == c1);
    assert((((c + n) % 256) - n) % 256 == c);
    assert(s2.memory =~= s.memory);
}

// ---------------------------------------------------------------------------
// The machine, executable
// ---------------------------------------------------------------------------

impl Cpu {
    /// A fresh machine for a program: `MAX_MEM` cells, all zero.
    pub fn new(ops: Vec<Op>, jit: bool) -> (cpu: Self)
        ensures
            cpu@ == initial_state(ops@, jit),
    {
        let memory = vec![0u8; MAX_MEM];
        let cpu = Self { memory, ops, ip: 0, head: 0, jit };
        proof {
            assert(cpu@.memory =~= Seq::new(MAX_MEM as nat, |i: int| 0u8));
        }
        cpu
    }

    /// Whether the machine runs its program as native code.
    pub fn jit(&self) -> (r: bool)
        ensures
            r == self@.jit,
    {
        self.jit
    }

    /// The program.
    pub fn ops(&self) -> (r: &Vec<Op>)
        ensures
            r@ == self@.ops,
    {
        &self.ops
    }

    /// Whether `step` may be called.
    pub fn can_step(&self) -> (r: bool)
        ensures
            r == step_allowed(self@),
    {
        if self.ip >= self.ops.len() {
            return false;
        }
        match self.ops[self.ip] {
            Op::Left(_) => true,
            Op::Right(n) => self.head <= usize::MAX - n as usize,
            Op::Jz(a) => self.head < self.memory.len() && (self.memory[self.head] != 0 || a
                < usize::MAX),
            Op::Jnz(a) => self.head < self.memory.len() && (self.memory[self.head] == 0 || a
                < usize::MAX),
            _ => self.head < self.memory.len(),
        }
    }

    /// Executes the instruction at `ip`. Returns what the outside world has
    /// to do, and whether the machine keeps running.
    pub fn step(&mut self) -> (r: (Effect, bool))
        requires
            step_allowed(old(self)@),
        ensures
            final(self)@ == step_spec(old(self)@).0,
            r.0 == step_spec(old(self)@).1,
            r.1 == step_spec(old(self)@).2,
    {
        let ghost s = self@;
        let len = self.ops.len();
        let op = self.ops[self.ip];
        let effect = match op {
            Op::Dec(n) => {
                let v = self.memory[self.head];
                self.memory.set(self.head, v.wrapping_sub((n % 256) as u8));
                Effect::Nothing
            },
            Op::Inc(n) => {
                let v = self.memory[self.head];
                self.memory.set(self.head, v.wrapping_add((n % 256) as u8));
                Effect::Nothing
            },
            // A move left of the first cell stops at the first cell.
            Op::Left(n) => {
                self.head = self.head.saturating_sub(n as usize);
                Effect::Nothing
            },
            Op::Right(n) => {
                self.head = self.head + n as usize;
                Effect::Nothing
            },
            Op::Out(n) => Effect::Output { byte: self.memory[self.head], count: n },
            Op::In(n) => Effect::Input { count: n },
            Op::Jz(addr) => {
                if self.memory[self.head] == 0 {
                    self.ip = addr + 1;
                    // Past the end of the program: stop.
                    let running = self.ip < self.ops.len();
                    proof {
                        assert(self@ == step_spec(s).0);
                    }
                    return (Effect::Nothing, running);
                }
                Effect::Nothing
            },
            Op::Jnz(addr) => {
                if self.memory[self.head] != 0 {
                    self.ip = addr + 1;
                    proof {
                        assert(self@ == step_spec(s).0);
                    }
                    return (Effect::Nothing, true);
                }
                Effect::Nothing
            },
        };
        assert(self.ip < len);
        self.ip = self.ip + 1;
        let running = self.ip < self.ops.len();
        proof {
            assert(self@.memory =~= step_spec(s).0.memory);
            assert(self@ == step_spec(s).0);
        }
        (effect, running)
    }

    /// Stores a byte read from the input in the current cell (nothing happens
    /// when the head is off the memory, which no `Effect::Input` leaves it).
    pub fn write_cell(&mut self, byte: u8)
        ensures
            final(self)@ == if 0 <= old(self)@.head < old(self)@.memory.len() {
                with_cell(old(self)@, byte)
            } else {
                old(self)@
            },
    {
        if self.head < self.memory.len() {
            self.memory.set(self.head, byte);
        }
    }

    /// Runs at most `fuel` steps, reading the program's input from `input`
    /// (0 once it is used up) and collecting what the program prints.
    pub fn run(&mut self, input: &[u8], fuel: u64) -> (r: RunResult)
        ensures
            run_spec(old(self)@, input@, fuel as nat) == (final(self)@, r.output@, r.status),
    {
        let ghost s0 = self@;
        let mut output: Vec<u8> = Vec::new();
        let mut pos: usize = 0;
        let mut left: u64 = fuel;
        proof {
            assert(input@.skip(0) =~= input@);
            assert(output@ + run_spec(s0, input@, fuel as nat).1 =~= run_spec(
                s0,
                input@,
                fuel as nat,
            ).1);
        }
        let mut status = Status::OutOfFuel;
        let mut done = false;
        while !done && left > 0
            invariant
                pos <= input@.len(),
                done ==> run_spec(s0, input@, fuel as nat) == (self@, output@, status),
                !done ==> ({
                    let rs = run_spec(self@, input@.skip(pos as int), left as nat);
                    run_spec(s0, input@, fuel as nat) == (rs.0, output@ + rs.1, rs.2)
                }),
                !done ==> status == Status::OutOfFuel,
            decreases left + if done {
                0int
            } else {
                1int
            },
        {
            if !self.can_step() {
                proof {
                    let rs = run_spec(self@, input@.skip(pos as int), left as nat);
                    assert(output@ + rs.1 =~= output@);
                }
                status = Status::Fault;
                done = true;
            } else {
                let ghost s = self@;
                let ghost inp = input@.skip(pos as int);
                let ghost out0 = output@;
                let (effect, running) = self.step();
                let ghost s1 = self@;
                match effect {
                    Effect::Nothing => {},
                    Effect::Output { byte, count } => {
                        let mut k: u32 = 0;
                        while k < count
                            invariant
                                k <= count,
                                output@ == out0 + Seq::new(k as nat, |i: int| byte),
                            decreases count - k,
                        {
                            output.push(byte);
                            k += 1;
                            proof {
                                assert(output@ =~= out0 + Seq::new(k as nat, |i: int| byte));
                            }
                        }
                    },
                    Effect::Input { count } => {
                        let ghost pos0 = pos;
                        let mut k: u32 = 0;
                        while k < count
                            invariant
                                k <= count,
                                pos0 <= pos <= input@.len(),
                                pos == if pos0 + k <= input@.len() {
                                    pos0 + k
                                } else {
                                    input@.len() as int
                                },
                                0 <= s1.head < s1.memory.len(),
                                self@ == if k == 0 {
                                    s1
                                } else if pos0 + k <= input@.len() {
                                    with_cell(s1, input@[pos0 + k - 1])
                                } else {
                                    with_cell(s1, 0)
                                },
                            decreases count - k,
                        {
                            let b = if pos < input.len() {
                                let b = input[pos];
                                pos += 1;
                                b
                            } else {
                                0
                            };
                            self.write_cell(b);
                            k += 1;
                            proof {
                                if k > 1 {
                                    assert(self@.memory =~= with_cell(s1, b).memory);
                                }
                            }
                        }
                        proof {
                            let r = read_input(s1, count as nat, inp);
                            if count > 0 && count <= inp.len() {
                                assert(inp[count - 1] == input@[pos0 + count - 1]);
                            }
                            assert(input@.skip(pos as int) =~= r.1);
                        }
                    },
                }
                left -= 1;
                proof {
                    let p = perform(s1, effect, inp);
                    assert(self@ == p.0);
                    assert(input@.skip(pos as int) =~= p.1);
                    assert(output@ =~= out0 + p.2);
                    let rest = run_spec(p.0, p.1, left as nat);
                    assert(out0 + (p.2 + rest.1) =~= output@ + rest.1);
                    if !running {
                        assert(out0 + p.2 =~= output@);
                    }
                }
                if !running {
                    status = Status::Halted;
                    done = true;
                }
            }
        }
        proof {
            if !done {
                let rs = run_spec(self@, input@.skip(pos as int), left as nat);
                assert(output@ + rs.1 =~= output@);
            }
        }
        RunResult { output, status }
    }
}

/// Parses and runs a program on the interpreter, reading its input from
/// `input` (0 once used up). `None` when the source holds no instruction;
/// otherwise what the program printed and how it ended, after at most
/// `STEP_LIMIT` steps. The brackets of the source must balance.
pub fn exec_source(source: &str, input: &[u8]) -> (r: Option<RunResult>)
    requires
        parsable(source.spec_bytes(), COMPRESS),
    ensures
        r is None <==> program(source.spec_bytes(), COMPRESS).len() == 0,
        r matches Some(res) ==> {
            let rs = run_spec(
                initial_state(program(source.spec_bytes(), COMPRESS), false),
                input@,
                STEP_LIMIT as nat,
            );
            res.output@ == rs.1 && res.status == rs.2
        },
{
    let ops = Op::parse(source);
    if ops.len() == 0 {
        return None;
    }
    let mut cpu = Cpu::new(ops, false);
    Some(cpu.run(input, STEP_LIMIT))
}

} // verus!
