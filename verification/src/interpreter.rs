//! The virtual machine: a fixed tape of 30,000 byte cells, a data pointer
//! that wraps around the tape, and small-step execution of an instruction
//! tree.
//!
//! Execution works on an explicit continuation: a sequence of instructions
//! still to run. One [`Interpreter::step`] consumes the head of the
//! continuation; a `Loop` whose cell is nonzero prepends its body and
//! itself, so a program that loops forever simply never empties the
//! continuation. The caller drives the machine and performs the character
//! input and output that a step asks for, so a driver over blocking
//! streams and a driver over byte buffers run the very same verified core.

use vstd::arithmetic::div_mod::{
    lemma_add_mod_noop, lemma_fundamental_div_mod, lemma_fundamental_div_mod_converse,
    lemma_mod_bound, lemma_mod_twice, lemma_small_mod,
};
use vstd::prelude::*;

use crate::token::{
    clone_tokens, lemma_view_toks_add, lemma_view_toks_index, lemma_view_toks_len, view_toks,
    Prog, Token,
};

verus! {

/// Number of cells on the tape.
pub const MEMORY_SIZE: usize = 30000;

/// What one step of execution asks of its driver.
#[derive(Debug, PartialEq, Eq, Structural)]
pub enum Event {
    /// The continuation is empty: the program has run to completion.
    Done,
    /// A step was taken; nothing is asked of the driver.
    Running,
    /// Write this byte, the current cell, to the output.
    Output(u8),
    /// Read one byte and store it with [`Interpreter::write_memory`].
    Input,
}

/// The tape and the data pointer.
pub struct Interpreter {
    pub memory: Vec<u8>,
    pub dp: usize,
}

/// The machine state a step acts on: tape, pointer and continuation.
#[verifier::ext_equal]
pub ghost struct Vm {
    pub mem: Seq<u8>,
    pub dp: int,
    pub cont: Seq<Prog>,
}

/// The pointer after a `Move`: offsets wrap modulo the tape size in both
/// directions, for deltas of any magnitude.
pub open spec fn wrap_dp(dp: int, delta: int) -> int {
    (dp + delta) % (MEMORY_SIZE as int)
}

/// A cell after an `IncValue`: values wrap modulo 256, for deltas of any
/// magnitude.
pub open spec fn wrap_cell(cell: int, delta: int) -> int {
    (cell + delta) % 256
}

/// One step of execution. The state is left as it is on `Done` (empty
/// continuation) and on `Input`, where the store happens only once the
/// driver hands the byte to [`Interpreter::write_memory`].
pub open spec fn step_spec(s: Vm) -> (Vm, Event) {
    if s.cont.len() == 0 {
        (s, Event::Done)
    } else {
        let rest = s.cont.drop_first();
        match s.cont[0] {
            Prog::Output => (Vm { cont: rest, ..s }, Event::Output(s.mem[s.dp] as u8)),
            Prog::Input => (Vm { cont: rest, ..s }, Event::Input),
            Prog::Move(v) => (Vm { dp: wrap_dp(s.dp, v), cont: rest, ..s }, Event::Running),
            Prog::IncValue(v) => (
                Vm { mem: s.mem.update(s.dp, wrap_cell(s.mem[s.dp] as int, v) as u8), cont: rest, ..s },
                Event::Running,
            ),
            Prog::Loop(body) => if s.mem[s.dp] == 0 {
                (Vm { cont: rest, ..s }, Event::Running)
            } else {
                (Vm { cont: body + seq![s.cont[0]] + rest, ..s }, Event::Running)
            },
        }
    }
}

/// A machine whose tape has the fixed size and whose pointer is on it.
pub open spec fn vm_wf(s: Vm) -> bool {
    s.mem.len() == MEMORY_SIZE && 0 <= s.dp < MEMORY_SIZE
}

impl Interpreter {
    pub open spec fn wf(self) -> bool {
        self.memory@.len() == MEMORY_SIZE && self.dp < MEMORY_SIZE
    }

    /// The machine state formed by this interpreter and a continuation.
    pub open spec fn vm(self, cont: Seq<Token>) -> Vm {
        Vm { mem: self.memory@, dp: self.dp as int, cont: view_toks(cont) }
    }

    /// Store a byte into the cell under the data pointer.
    pub fn write_memory(&mut self, byte: u8)
        requires
            old(self).dp < old(self).memory@.len(),
        ensures
            final(self).memory@ == old(self).memory@.update(old(self).dp as int, byte),
            final(self).dp == old(self).dp,
    {
        self.memory[self.dp] = byte;
    }

    /// The byte in the cell under the data pointer.
    pub fn read_memory(&self) -> (r: u8)
        requires
            self.dp < self.memory@.len(),
        ensures
            r == self.memory@[self.dp as int],
    {
        self.memory[self.dp]
    }

    /// Whether the invariant holds, decided at run time, so that an
    /// unverified driver can check it before stepping.
    pub fn is_ready(&self) -> (r: bool)
        ensures
            r == self.wf(),
    {
        self.memory.len() == MEMORY_SIZE && self.dp < MEMORY_SIZE
    }
}

/// The nonnegative remainder of `delta` modulo `m`.
fn euclid_rem(delta: isize, m: u128) -> (r: u128)
    requires
        1 <= m <= 0x10000000000000000u128,
    ensures
        r == (delta as int) % (m as int),
{
    if delta >= 0 {
        let r = (delta as u128) % m;
        proof {
            lemma_mod_bound(delta as int, m as int);
        }
        r
    } else {
        let mag = (-(delta as i128)) as u128;
        let rm = mag % m;
        proof {
            lemma_fundamental_div_mod(mag as int, m as int);
            lemma_mod_bound(mag as int, m as int);
            let q = (mag as int) / (m as int);
            if rm == 0 {
                assert(delta as int == (-q) * (m as int) + 0) by (nonlinear_arith)
                    requires
                        mag as int == (m as int) * q + (rm as int),
                        rm == 0,
                        delta as int == -(mag as int),
                ;
                lemma_fundamental_div_mod_converse(delta as int, m as int, -q, 0);
            } else {
                assert(delta as int == (-q - 1) * (m as int) + ((m - rm) as int))
                    by (nonlinear_arith)
                    requires
                        mag as int == (m as int) * q + (rm as int),
                        delta as int == -(mag as int),
                ;
                lemma_fundamental_div_mod_converse(
                    delta as int,
                    m as int,
                    -q - 1,
                    (m - rm) as int,
                );
            }
        }
        if rm == 0 {
            0
        } else {
            m - rm
        }
    }
}

/// The data pointer shifted by `delta`, wrapped onto the tape.
fn apply_move(dp: usize, delta: isize) -> (r: usize)
    requires
        dp < MEMORY_SIZE,
    ensures
        r == wrap_dp(dp as int, delta as int),
        r < MEMORY_SIZE,
{
    let m: u128 = MEMORY_SIZE as u128;
    let off = euclid_rem(delta, m);
    let r = ((dp as u128) + off) % m;
    proof {
        lemma_mod_bound((dp + off) as int, m as int);
        lemma_small_mod(dp as nat, m as nat);
        lemma_add_mod_noop(dp as int, off as int, m as int);
        lemma_add_mod_noop(dp as int, delta as int, m as int);
        lemma_mod_bound(delta as int, m as int);
        lemma_small_mod(off as nat, m as nat);
    }
    r as usize
}

/// The current cell shifted by `delta`, wrapped modulo 256.
fn apply_inc(cell: u8, delta: isize) -> (r: u8)
    ensures
        r == wrap_cell(cell as int, delta as int),
{
    let off128 = euclid_rem(delta, 256);
    proof {
        lemma_mod_bound(delta as int, 256);
    }
    let off = off128 as u8;
    let r = cell.wrapping_add(off);
    proof {
        lemma_add_mod_noop(cell as int, off as int, 256);
        lemma_add_mod_noop(cell as int, delta as int, 256);
        lemma_small_mod(cell as nat, 256);
        lemma_small_mod(off as nat, 256);
        lemma_mod_bound((cell + off) as int, 256);
    }
    r
}

impl Interpreter {
    /// Execute the next instruction of the continuation, and return what
    /// the driver must now do.
    pub fn step(&mut self, cont: &mut Vec<Token>) -> (e: Event)
        requires
            old(self).wf(),
        ensures
            final(self).wf(),
            (final(self).vm(final(cont)@), e) == step_spec(old(self).vm(old(cont)@)),
    {
        let ghost s0 = old(self).vm(old(cont)@);
        proof {
            lemma_view_toks_len(old(cont)@);
        }
        if cont.len() == 0 {
            return Event::Done;
        }
        let ghost c0 = old(cont)@;
        let t = cont.remove(0);
        proof {
            lemma_view_toks_index(c0, 0);
            lemma_view_toks_len(c0.remove(0));
            assert forall|k: int| 0 <= k < c0.len() - 1 implies view_toks(c0.remove(0))[k]
                == view_toks(c0).drop_first()[k] by {
                lemma_view_toks_index(c0.remove(0), k);
                lemma_view_toks_index(c0, k + 1);
                assert(c0.remove(0)[k] == c0[k + 1]);
            }
            assert(view_toks(c0.remove(0)) =~= view_toks(c0).drop_first());
        }
        match t {
            Token::Output => {
                let b = self.read_memory();
                proof {
                    assert(self.vm(cont@) =~= step_spec(s0).0);
                }
                Event::Output(b)
            },
            Token::Input => {
                proof {
                    assert(self.vm(cont@) =~= step_spec(s0).0);
                }
                Event::Input
            },
            Token::Move(v) => {
                self.dp = apply_move(self.dp, v);
                proof {
                    assert(self.vm(cont@) =~= step_spec(s0).0);
                }
                Event::Running
            },
            Token::IncValue(v) => {
                let c = self.read_memory();
                let nc = apply_inc(c, v);
                self.write_memory(nc);
                proof {
                    assert(self.vm(cont@) =~= step_spec(s0).0);
                }
                Event::Running
            },
            Token::Loop(body) => {
                if self.read_memory() != 0 {
                    let ghost rest = cont@;
                    let mut expansion = clone_tokens(&body);
                    let ghost e0 = expansion@;
                    expansion.push(Token::Loop(body));
                    proof {
                        assert(expansion@.drop_last() =~= e0);
                    }
                    let ghost e1 = expansion@;
                    expansion.append(cont);
                    proof {
                        lemma_view_toks_add(e1, rest);
                    }
                    *cont = expansion;
                    proof {
                        assert(view_toks(e1) =~= view_toks(body@) + seq![s0.cont[0]]);
                        assert(self.vm(cont@) =~= step_spec(s0).0);
                    }
                } else {
                    proof {
                        assert(self.vm(cont@) =~= step_spec(s0).0);
                    }
                }
                Event::Running
            },
        }
    }
}

/// A byte buffer serving as the machine's input stream.
pub struct InputBuffer {
    pub data: Vec<u8>,
    pub pos: usize,
}

/// The byte an `Input` instruction reads: the next buffered byte, or zero
/// once the buffer is exhausted, as a stream at end of file reads zero.
pub open spec fn next_in(inp: Seq<u8>) -> u8 {
    if inp.len() == 0 {
        0
    } else {
        inp[0]
    }
}

pub open spec fn rest_in(inp: Seq<u8>) -> Seq<u8> {
    if inp.len() == 0 {
        inp
    } else {
        inp.drop_first()
    }
}

impl InputBuffer {
    pub open spec fn wf(self) -> bool {
        self.pos <= self.data@.len()
    }

    /// The bytes not yet consumed.
    pub open spec fn remaining(self) -> Seq<u8> {
        self.data@.skip(self.pos as int)
    }

    pub fn new(data: Vec<u8>) -> (r: Self)
        ensures
            r.wf(),
            r.remaining() == data@,
    {
        let r = InputBuffer { data, pos: 0 };
        proof {
            assert(r.remaining() =~= r.data@);
        }
        r
    }

    /// Consume and return the next byte; at the end, read zero.
    pub fn next_byte(&mut self) -> (b: u8)
        requires
            old(self).wf(),
        ensures
            final(self).wf(),
            b == next_in(old(self).remaining()),
            final(self).remaining() == rest_in(old(self).remaining()),
    {
        if self.pos < self.data.len() {
            let b = self.data[self.pos];
            self.pos = self.pos + 1;
            proof {
                assert(self.remaining() =~= rest_in(old(self).remaining()));
            }
            b
        } else {
            0
        }
    }
}

/// The full state of buffered execution: machine, remaining input,
/// output emitted so far.
#[verifier::ext_equal]
pub ghost struct BufVm {
    pub vm: Vm,
    pub inp: Seq<u8>,
    pub out: Seq<u8>,
}

/// One step of buffered execution: a [`step_spec`] step, with `Output`
/// appended to the output and `Input` served from the input.
pub open spec fn buf_step(s: BufVm) -> BufVm {
    let (v2, e) = step_spec(s.vm);
    match e {
        Event::Output(b) => BufVm { vm: v2, inp: s.inp, out: s.out.push(b) },
        Event::Input => BufVm {
            vm: Vm { mem: v2.mem.update(v2.dp, next_in(s.inp)), ..v2 },
            inp: rest_in(s.inp),
            out: s.out,
        },
        _ => BufVm { vm: v2, ..s },
    }
}

/// `n` steps of buffered execution.
pub open spec fn buf_run(s: BufVm, n: nat) -> BufVm
    decreases n,
{
    if n == 0 {
        s
    } else {
        buf_step(buf_run(s, (n - 1) as nat))
    }
}

/// The buffered-execution state formed by an interpreter, a continuation
/// and the two byte buffers.
pub open spec fn buf_of(i: Interpreter, cont: Seq<Token>, inp: Seq<u8>, out: Seq<u8>) -> BufVm {
    BufVm { vm: i.vm(cont), inp, out }
}

impl Interpreter {
    /// Drive the machine against byte buffers for at most `budget` steps.
    /// Returns whether the program ran to completion; `false` means the
    /// budget ran out first. The final buffers and machine are exactly
    /// those of as many [`buf_step`] steps of the starting state.
    #[verifier::loop_isolation(false)]
    pub fn run(
        &mut self,
        cont: &mut Vec<Token>,
        input: &mut InputBuffer,
        output: &mut Vec<u8>,
        budget: u64,
    ) -> (done: bool)
        requires
            old(self).wf(),
            old(input).wf(),
        ensures
            final(self).wf(),
            final(input).wf(),
            done == (final(cont)@.len() == 0),
            exists|n: nat|
                n <= budget && (!done ==> n == budget) && buf_of(
                    *final(self),
                    final(cont)@,
                    final(input).remaining(),
                    final(output)@,
                ) == buf_run(
                    buf_of(*old(self), old(cont)@, old(input).remaining(), old(output)@),
                    n,
                ),
    {
        let ghost s0 = buf_of(*old(self), old(cont)@, old(input).remaining(), old(output)@);
        let mut i: u64 = 0;
        while i < budget
            invariant
                self.wf(),
                input.wf(),
                i <= budget,
                buf_of(*self, cont@, input.remaining(), output@) == buf_run(s0, i as nat),
            decreases budget - i,
        {
            proof {
                lemma_view_toks_len(cont@);
            }
            if cont.len() == 0 {
                proof {
                    let n = i as nat;
                    assert(n <= budget && (!true ==> n == budget) && buf_of(
                        *self,
                        cont@,
                        input.remaining(),
                        output@,
                    ) == buf_run(s0, n));
                }
                return true;
            }
            let ghost pre = buf_of(*self, cont@, input.remaining(), output@);
            let e = self.step(cont);
            match e {
                Event::Output(b) => {
                    output.push(b);
                },
                Event::Input => {
                    let b = input.next_byte();
                    self.write_memory(b);
                },
                _ => {},
            }
            proof {
                assert(buf_of(*self, cont@, input.remaining(), output@) =~= buf_step(pre));
                assert(buf_run(s0, (i + 1) as nat) == buf_step(buf_run(s0, i as nat)));
            }
            i += 1;
        }
        proof {
            let n = budget as nat;
            assert(n <= budget && buf_of(*self, cont@, input.remaining(), output@) == buf_run(
                s0,
                n,
            ));
            lemma_view_toks_len(cont@);
        }
        cont.len() == 0
    }
}

/// A net `Move` by the whole tape size returns the pointer to where it
/// started, from any starting cell.
pub proof fn lemma_pointer_wraparound(dp: int)
    requires
        0 <= dp < MEMORY_SIZE,
    ensures
        wrap_dp(dp, MEMORY_SIZE as int) == dp,
{
    lemma_fundamental_div_mod_converse(dp + MEMORY_SIZE as int, MEMORY_SIZE as int, 1, dp);
}

/// Consecutive `Move`s compose: their deltas add before wrapping, so a run
/// of moves is determined by its net delta alone.
pub proof fn lemma_move_compose(dp: int, a: int, b: int)
    requires
        0 <= dp < MEMORY_SIZE,
    ensures
        wrap_dp(wrap_dp(dp, a), b) == wrap_dp(dp, a + b),
{
    let m = MEMORY_SIZE as int;
    lemma_add_mod_noop(dp + a, b, m);
    lemma_mod_twice(dp + a, m);
    lemma_small_mod((b % m) as nat, m as nat);
    lemma_mod_bound(b, m);
    lemma_add_mod_noop(dp + a, b % m, m);
    lemma_mod_bound(b % m, m);
}

/// A net `IncValue` of 256 leaves the cell exactly as it was.
pub proof fn lemma_cell_wraparound(cell: int)
    requires
        0 <= cell < 256,
    ensures
        wrap_cell(cell, 256) == cell,
{
    lemma_fundamental_div_mod_converse(cell + 256, 256, 1, cell);
}

/// Consecutive `IncValue`s compose: their deltas add before wrapping.
pub proof fn lemma_inc_compose(cell: int, a: int, b: int)
    requires
        0 <= cell < 256,
    ensures
        wrap_cell(wrap_cell(cell, a), b) == wrap_cell(cell, a + b),
{
    lemma_add_mod_noop(cell + a, b, 256);
    lemma_mod_twice(cell + a, 256);
    lemma_small_mod((b % 256) as nat, 256);
    lemma_mod_bound(b, 256);
    lemma_add_mod_noop(cell + a, b % 256, 256);
    lemma_mod_bound(b % 256, 256);
}

/// A loop with an empty body over a nonzero cell steps to exactly the same
/// state, so the machine runs forever: no number of steps empties the
/// continuation. Such a program is legitimate and is never rejected.
pub proof fn lemma_empty_loop_runs_forever(s: BufVm, body: Seq<Prog>, n: nat)
    requires
        body.len() == 0,
        s.vm.cont == seq![Prog::Loop(body)],
        vm_wf(s.vm),
        s.vm.mem[s.vm.dp] != 0,
    ensures
        buf_run(s, n) == s,
        buf_run(s, n).vm.cont.len() > 0,
    decreases n,
{
    if n > 0 {
        lemma_empty_loop_runs_forever(s, body, (n - 1) as nat);
        assert(body + seq![s.vm.cont[0]] + s.vm.cont.drop_first() =~= s.vm.cont);
        assert(buf_step(s) =~= s);
    }
}

impl Default for Interpreter {
    /// A fresh machine: every cell zero, the pointer on cell 0.
    fn default() -> (r: Self)
        ensures
            r.wf(),
            r.memory@.len() == MEMORY_SIZE,
            forall|i: int| 0 <= i < MEMORY_SIZE ==> r.memory@[i] == 0u8,
            r.dp == 0,
    {
        let mut memory: Vec<u8> = Vec::new();
        let mut i: usize = 0;
        while i < MEMORY_SIZE
            invariant
                i <= MEMORY_SIZE,
                memory@.len() == i,
                forall|j: int| 0 <= j < i ==> memory@[j] == 0u8,
            decreases MEMORY_SIZE - i,
        {
            memory.push(0);
            i += 1;
        }
        Interpreter { memory, dp: 0 }
    }
}

} // verus!
