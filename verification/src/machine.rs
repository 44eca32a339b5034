use crate::inst::Instr;
use vstd::prelude::*;

verus! {

/// A fatal condition met while executing an instruction sequence.
#[derive(Clone, Copy, Debug, PartialEq, Eq, Structural)]
pub enum EvalError {
    /// The cursor was moved left of tape position zero.
    TapeUnderflow,
    /// An `Input` instruction found the input stream exhausted.
    InputExhausted,
}

/// The machine state threaded through successive compile-and-execute cycles:
/// a growable tape of 8-bit cells and a cursor into it.
pub struct Machine {
    /// The growable byte memory manipulated by the instructions.
    pub tape: Vec<u8>,
    /// The tape index currently addressed by arithmetic and stream
    /// instructions.
    pub cursor: usize,
}

impl Machine {
    /// The cursor always addresses a valid cell.
    pub open spec fn wf(self) -> bool {
        self.cursor < self.tape@.len()
    }

    /// A fresh machine: a single zero cell, cursor at position zero.
    pub fn new() -> (m: Machine)
        ensures
            m.wf(),
            m.tape@ == seq![0u8],
            m.cursor == 0,
    {
        let mut tape: Vec<u8> = Vec::new();
        tape.push(0);
        assert(tape@ =~= seq![0u8]);
        Machine { tape, cursor: 0 }
    }
}

/// The byte streams an execution reads from and writes to, with the input
/// held as a whole and consumed left to right.
pub struct Io {
    /// The bytes available to `Input` instructions.
    pub input: Vec<u8>,
    /// How many input bytes have been consumed so far.
    pub next: usize,
    /// The bytes written by `Output` instructions, in program order.
    pub output: Vec<u8>,
}

impl Io {
    /// The consumption mark never runs past the input.
    pub open spec fn wf(self) -> bool {
        self.next <= self.input@.len()
    }

    /// Fresh streams over the given input, nothing consumed or written yet.
    pub fn new(input: Vec<u8>) -> (io: Io)
        ensures
            io.wf(),
            io.input@ == input@,
            io.next == 0,
            io.output@ == Seq::<u8>::empty(),
    {
        let io = Io { input, next: 0, output: Vec::new() };
        assert(io.output@ =~= Seq::<u8>::empty());
        io
    }
}

/// Adding one to a cell, wrapping modulo 256.
pub open spec fn wrap_inc(b: u8) -> u8 {
    if b == 255 {
        0
    } else {
        (b + 1) as u8
    }
}

/// Subtracting one from a cell, wrapping modulo 256.
pub open spec fn wrap_dec(b: u8) -> u8 {
    if b == 0 {
        255
    } else {
        (b - 1) as u8
    }
}

/// A full execution state: the machine, the position in both streams, and
/// the instruction pointer.
#[verifier::ext_equal]
pub struct Config {
    /// The tape contents.
    pub tape: Seq<u8>,
    /// The tape index the instructions act on.
    pub cursor: int,
    /// The index of the next instruction to execute.
    pub ip: int,
    /// How many input bytes have been consumed.
    pub next: int,
    /// The bytes written so far.
    pub output: Seq<u8>,
}

/// A configuration is sound: the cursor addresses a tape cell, the input mark
/// is within the input, the instruction pointer is not negative.
pub open spec fn cfg_wf(input: Seq<u8>, c: Config) -> bool {
    &&& 0 <= c.cursor < c.tape.len()
    &&& 0 <= c.next <= input.len()
    &&& 0 <= c.ip
}

/// Execution ends the moment the instruction pointer falls outside the
/// sequence; there is no explicit halt instruction.
pub open spec fn halted(prog: Seq<Instr>, c: Config) -> bool {
    !(0 <= c.ip < prog.len())
}

/// The execution state a machine, its streams and an instruction pointer
/// stand for.
pub open spec fn cfg(m: Machine, io: Io, ip: int) -> Config {
    Config {
        tape: m.tape@,
        cursor: m.cursor as int,
        ip,
        next: io.next as int,
        output: io.output@,
    }
}

/// Whether a configuration describes the given machine and streams (the
/// instruction pointer aside).
pub open spec fn agrees(c: Config, m: Machine, io: Io) -> bool {
    &&& c.tape == m.tape@
    &&& c.cursor == m.cursor as int
    &&& c.next == io.next as int
    &&& c.output == io.output@
}

/// One instruction executed: what the fetched instruction does to the
/// configuration, or the fatal condition it runs into.
///
/// `MoveRight` grows the tape by exactly one zero cell when the cursor runs
/// past the end, and never otherwise.  `MoveLeft` at position zero and
/// `Input` on an exhausted input stream are fatal.  Arithmetic wraps modulo
/// 256.  `JumpIfZero` and `Jump` set the instruction pointer to their target;
/// every other instruction advances it by one.
pub open spec fn step(prog: Seq<Instr>, input: Seq<u8>, c: Config) -> Result<Config, EvalError>
    recommends
        cfg_wf(input, c),
        !halted(prog, c),
{
    match prog[c.ip] {
        Instr::MoveLeft => {
            if c.cursor <= 0 {
                Err(EvalError::TapeUnderflow)
            } else {
                Ok(Config { cursor: c.cursor - 1, ip: c.ip + 1, ..c })
            }
        },
        Instr::MoveRight => {
            let tape = if c.cursor + 1 >= c.tape.len() {
                c.tape.push(0)
            } else {
                c.tape
            };
            Ok(Config { tape, cursor: c.cursor + 1, ip: c.ip + 1, ..c })
        },
        Instr::Increment => Ok(
            Config { tape: c.tape.update(c.cursor, wrap_inc(c.tape[c.cursor])), ip: c.ip + 1, ..c },
        ),
        Instr::Decrement => Ok(
            Config { tape: c.tape.update(c.cursor, wrap_dec(c.tape[c.cursor])), ip: c.ip + 1, ..c },
        ),
        Instr::Output => Ok(Config { output: c.output.push(c.tape[c.cursor]), ip: c.ip + 1, ..c }),
        Instr::Input => {
            if c.next >= input.len() {
                Err(EvalError::InputExhausted)
            } else {
                Ok(
                    Config {
                        tape: c.tape.update(c.cursor, input[c.next]),
                        next: c.next + 1,
                        ip: c.ip + 1,
                        ..c
                    },
                )
            }
        },
        Instr::JumpIfZero(target) => {
            if c.tape[c.cursor] == 0 {
                Ok(Config { ip: target as int, ..c })
            } else {
                Ok(Config { ip: c.ip + 1, ..c })
            }
        },
        Instr::Jump(target) => Ok(Config { ip: target as int, ..c }),
    }
}

/// Where a bounded execution ends up.
pub enum Outcome {
    /// The step budget ran out with the machine still running.
    Running(Config),
    /// The instruction pointer fell outside the sequence.
    Halted(Config),
    /// A step ran into a fatal condition in the given configuration.
    Faulted(EvalError, Config),
}

/// Execution from a configuration, one step at a time, for at most `fuel`
/// steps or until it halts or faults.
pub open spec fn run(prog: Seq<Instr>, input: Seq<u8>, c: Config, fuel: nat) -> Outcome
    decreases fuel,
{
    if halted(prog, c) {
        Outcome::Halted(c)
    } else if fuel == 0 {
        Outcome::Running(c)
    } else {
        match step(prog, input, c) {
            Err(e) => Outcome::Faulted(e, c),
            Ok(c2) => run(prog, input, c2, (fuel - 1) as nat),
        }
    }
}

/// The cell value after `n` consecutive `Increment`s starting from `b`.
pub open spec fn iter_inc(b: u8, n: nat) -> u8
    decreases n,
{
    if n == 0 {
        b
    } else {
        wrap_inc(iter_inc(b, (n - 1) as nat))
    }
}

/// `n` increments take a cell from `b` to `(b + n) % 256`.
pub proof fn lemma_iter_inc_mod(b: u8, n: nat)
    ensures
        iter_inc(b, n) == ((b + n) % 256) as u8,
    decreases n,
{
    if n > 0 {
        lemma_iter_inc_mod(b, (n - 1) as nat);
    }
}

/// Cell arithmetic wraps modulo 256: incrementing 255 yields 0, decrementing
/// 0 yields 255, the two undo each other, and 256 consecutive increments
/// return any cell to its starting value.
pub proof fn lemma_cell_wrapping(b: u8)
    ensures
        wrap_inc(255) == 0,
        wrap_dec(0) == 255,
        wrap_dec(wrap_inc(b)) == b,
        iter_inc(b, 256) == b,
{
    lemma_iter_inc_mod(b, 256);
}

/// A sound configuration stays sound: a step never leaves the cursor outside
/// the tape nor the input mark outside the input.
pub proof fn lemma_step_preserves_wf(prog: Seq<Instr>, input: Seq<u8>, c: Config)
    requires
        cfg_wf(input, c),
        !halted(prog, c),
    ensures
        (match step(prog, input, c) {
            Ok(c2) => cfg_wf(input, c2),
            Err(_) => true,
        }),
{
}

/// The tape grows lazily and by the least amount: a `MoveRight` whose cursor
/// runs past the end appends exactly one zero cell, and one that stays inside
/// leaves the tape untouched.  The cursor always advances by exactly one, and
/// the step never faults.
pub proof fn lemma_move_right_growth(prog: Seq<Instr>, input: Seq<u8>, c: Config)
    requires
        cfg_wf(input, c),
        !halted(prog, c),
        prog[c.ip] == Instr::MoveRight,
    ensures
        (match step(prog, input, c) {
            Ok(c2) => {
                &&& c2.cursor == c.cursor + 1
                &&& (c.cursor + 1 == c.tape.len() ==> c2.tape == c.tape.push(0))
                &&& (c.cursor + 1 < c.tape.len() ==> c2.tape == c.tape)
                &&& c2.tape.len() <= c.tape.len() + 1
            },
            Err(_) => false,
        }),
{
}

/// A budget that ran out loses nothing: running with part of a budget and
/// then resuming from where it paused goes exactly where one run with the
/// whole budget would have gone.
pub proof fn lemma_run_resume(prog: Seq<Instr>, input: Seq<u8>, c: Config, fuel1: nat, fuel2: nat)
    ensures
        (match run(prog, input, c, fuel1) {
            Outcome::Running(c2) => run(prog, input, c, fuel1 + fuel2) == run(
                prog,
                input,
                c2,
                fuel2,
            ),
            _ => true,
        }),
    decreases fuel1,
{
    if fuel1 > 0 && !halted(prog, c) {
        match step(prog, input, c) {
            Ok(c3) => {
                lemma_run_resume(prog, input, c3, (fuel1 - 1) as nat, fuel2);
            },
            Err(_) => {},
        }
    }
}

/// A run that halted or faulted is done: a larger step budget ends the same
/// way, in the same configuration.
pub proof fn lemma_run_more_fuel(
    prog: Seq<Instr>,
    input: Seq<u8>,
    c: Config,
    fuel1: nat,
    fuel2: nat,
)
    requires
        fuel1 <= fuel2,
    ensures
        (match run(prog, input, c, fuel1) {
            Outcome::Halted(h) => run(prog, input, c, fuel2) == Outcome::Halted(h),
            Outcome::Faulted(e, cf) => run(prog, input, c, fuel2) == Outcome::Faulted(e, cf),
            Outcome::Running(_) => true,
        }),
    decreases fuel1,
{
    if fuel1 > 0 && !halted(prog, c) {
        match step(prog, input, c) {
            Ok(c3) => {
                lemma_run_more_fuel(prog, input, c3, (fuel1 - 1) as nat, (fuel2 - 1) as nat);
            },
            Err(_) => {},
        }
    }
}

/// How a bounded execution came back: finished, or stopped mid-program with
/// the instruction pointer to resume from.
#[derive(Clone, Copy, Debug, PartialEq, Eq, Structural)]
pub enum Status {
    /// The instruction pointer fell outside the sequence.
    Halted,
    /// The step budget ran out; execution can resume at the held index.
    Paused(usize),
}

/// Execute `program` against `machine` and the streams in `io`, starting at
/// instruction `start`, for at most `fuel` steps.
///
/// The result is exactly what the step semantics says of the starting
/// configuration: `Ok(Halted)` when the instruction pointer fell off the
/// sequence within the budget, `Ok(Paused(ip))` when the budget ran out at
/// `ip`, and the fatal condition (`TapeUnderflow`, `InputExhausted`) that the
/// faulting step runs into otherwise — with machine and streams left exactly
/// as that configuration has them.
#[verifier::loop_isolation(false)]
pub fn resume(
    program: &Vec<Instr>,
    machine: &mut Machine,
    io: &mut Io,
    start: usize,
    fuel: u64,
) -> (r: Result<Status, EvalError>)
    requires
        old(machine).wf(),
        old(io).wf(),
    ensures
        final(machine).wf(),
        final(io).wf(),
        final(io).input@ == old(io).input@,
        (match run(program@, old(io).input@, cfg(*old(machine), *old(io), start as int), fuel as nat) {
            Outcome::Halted(c) => r == Ok::<Status, EvalError>(Status::Halted) && agrees(
                c,
                *final(machine),
                *final(io),
            ),
            Outcome::Running(c) => r == Ok::<Status, EvalError>(Status::Paused(c.ip as usize))
                && agrees(c, *final(machine), *final(io)),
            Outcome::Faulted(e, c) => r == Err::<Status, EvalError>(e) && agrees(c, *final(machine), *final(io)),
        }),
{
    let ghost prog = program@;
    let ghost input = old(io).input@;
    let ghost c0 = cfg(*old(machine), *old(io), start as int);
    let mut ip = start;
    let mut left = fuel;
    while ip < program.len() && left > 0
        invariant
            machine.wf(),
            io.wf(),
            io.input@ == input,
            prog == program@,
            run(prog, input, c0, fuel as nat) == run(prog, input, cfg(*machine, *io, ip as int), left as nat),
        decreases left,
    {
        let ghost pre = cfg(*machine, *io, ip as int);
        let op = program[ip];
        match op {
            Instr::MoveLeft => {
                if machine.cursor == 0 {
                    proof {
                        assert(step(prog, input, pre) == Err::<Config, EvalError>(
                            EvalError::TapeUnderflow,
                        ));
                        assert(run(prog, input, pre, left as nat) == Outcome::Faulted(
                            EvalError::TapeUnderflow,
                            pre,
                        ));
                    }
                    return Err(EvalError::TapeUnderflow);
                }
                machine.cursor = machine.cursor - 1;
                ip = ip + 1;
            },
            Instr::MoveRight => {
                let len = machine.tape.len();
                machine.cursor = machine.cursor + 1;
                if machine.cursor >= len {
                    machine.tape.push(0);
                }
                ip = ip + 1;
            },
            Instr::Increment => {
                let v = machine.tape[machine.cursor];
                let w = if v == 255 {
                    0
                } else {
                    v + 1
                };
                machine.tape.set(machine.cursor, w);
                ip = ip + 1;
            },
            Instr::Decrement => {
                let v = machine.tape[machine.cursor];
                let w = if v == 0 {
                    255
                } else {
                    v - 1
                };
                machine.tape.set(machine.cursor, w);
                ip = ip + 1;
            },
            Instr::Output => {
                let b = machine.tape[machine.cursor];
                io.output.push(b);
                ip = ip + 1;
            },
            Instr::Input => {
                if io.next >= io.input.len() {
                    proof {
                        assert(step(prog, input, pre) == Err::<Config, EvalError>(
                            EvalError::InputExhausted,
                        ));
                        assert(run(prog, input, pre, left as nat) == Outcome::Faulted(
                            EvalError::InputExhausted,
                            pre,
                        ));
                    }
                    return Err(EvalError::InputExhausted);
                }
                let b = io.input[io.next];
                io.next = io.next + 1;
                machine.tape.set(machine.cursor, b);
                ip = ip + 1;
            },
            Instr::JumpIfZero(target) => {
                if machine.tape[machine.cursor] == 0 {
                    ip = target;
                } else {
                    ip = ip + 1;
                }
            },
            Instr::Jump(target) => {
                ip = target;
            },
        }
        proof {
            assert(step(prog, input, pre) == Ok::<Config, EvalError>(cfg(*machine, *io, ip as int)));
            assert(run(prog, input, pre, left as nat) == run(
                prog,
                input,
                cfg(*machine, *io, ip as int),
                (left - 1) as nat,
            ));
        }
        left = left - 1;
    }
    if ip < program.len() {
        proof {
            assert(run(prog, input, cfg(*machine, *io, ip as int), left as nat) == Outcome::Running(
                cfg(*machine, *io, ip as int),
            ));
        }
        Ok(Status::Paused(ip))
    } else {
        proof {
            assert(run(prog, input, cfg(*machine, *io, ip as int), left as nat) == Outcome::Halted(
                cfg(*machine, *io, ip as int),
            ));
        }
        Ok(Status::Halted)
    }
}

/// Execute `program` from its first instruction against `machine` and the
/// streams in `io`, for at most `fuel` steps.  The machine state persists
/// across calls, so successive source units run against the same tape.
pub fn eval(program: &Vec<Instr>, machine: &mut Machine, io: &mut Io, fuel: u64) -> (r: Result<
    Status,
    EvalError,
>)
    requires
        old(machine).wf(),
        old(io).wf(),
    ensures
        final(machine).wf(),
        final(io).wf(),
        final(io).input@ == old(io).input@,
        (match run(program@, old(io).input@, cfg(*old(machine), *old(io), 0), fuel as nat) {
            Outcome::Halted(c) => r == Ok::<Status, EvalError>(Status::Halted) && agrees(
                c,
                *final(machine),
                *final(io),
            ),
            Outcome::Running(c) => r == Ok::<Status, EvalError>(Status::Paused(c.ip as usize))
                && agrees(c, *final(machine), *final(io)),
            Outcome::Faulted(e, c) => r == Err::<Status, EvalError>(e) && agrees(c, *final(machine), *final(io)),
        }),
{
    resume(program, machine, io, 0, fuel)
}

} // verus!
