use vstd::prelude::*;

use crate::parser::Op;

verus! {

/// Number of cells on the tape.
pub const TAPE_LEN: usize = 30000;

/// Why a run stopped early.
#[derive(Debug, Clone, Copy, PartialEq, Eq, Structural)]
pub enum RuntimeError {
    /// The cursor would move right of the last cell.
    Overflow,
    /// The cursor would move left of cell 0.
    Underflow,
    /// Fewer bytes were supplied than an input instruction reads.
    InputExhausted,
}

/// What the machine asks of its caller after running.
#[derive(Debug, Clone, Copy, PartialEq, Eq, Structural)]
pub enum Action {
    /// Instructions remain to be run.
    Running,
    /// The instruction pointer has passed the end of the program.
    Halted,
    /// Write `byte` to the output `count` times; the instruction is done.
    Output { byte: u8, count: u8 },
    /// The current instruction reads `count` bytes: hand them to `feed`.
    Input { count: u8 },
}

/// The state of a machine as mathematical values.
pub struct Machine {
    pub program: Seq<Op>,
    pub tape: Seq<u8>,
    pub head: int,
    pub instruction: int,
}

pub open spec fn wrap_add(a: u8, b: u8) -> u8 {
    ((a + b) % 256) as u8
}

pub open spec fn wrap_sub(a: u8, b: u8) -> u8 {
    ((a - b + 256) % 256) as u8
}

impl Machine {
    /// The tape has its fixed length and the cursor is on it.
    pub open spec fn valid(self) -> bool {
        &&& self.tape.len() == TAPE_LEN
        &&& 0 <= self.head < TAPE_LEN
        &&& 0 <= self.instruction
    }

    pub open spec fn cell(self) -> u8 {
        self.tape[self.head]
    }

    pub open spec fn advanced(self) -> Machine {
        Machine { instruction: self.instruction + 1, ..self }
    }

    /// Carries out the current instruction. Output is reported and done;
    /// input is reported and left for `feed_spec`; errors change nothing.
    pub open spec fn step_spec(self) -> (Machine, Result<Action, RuntimeError>) {
        if self.instruction >= self.program.len() {
            (self, Ok(Action::Halted))
        } else {
            match self.program[self.instruction] {
                Op::Inc(n) => (
                    Machine {
                        tape: self.tape.update(self.head, wrap_add(self.cell(), n)),
                        ..self.advanced()
                    },
                    Ok(Action::Running),
                ),
                Op::Dec(n) => (
                    Machine {
                        tape: self.tape.update(self.head, wrap_sub(self.cell(), n)),
                        ..self.advanced()
                    },
                    Ok(Action::Running),
                ),
                Op::Right(n) => if self.head + n >= TAPE_LEN {
                    (self, Err(RuntimeError::Overflow))
                } else {
                    (Machine { head: self.head + n, ..self.advanced() }, Ok(Action::Running))
                },
                Op::Left(n) => if n > self.head {
                    (self, Err(RuntimeError::Underflow))
                } else {
                    (Machine { head: self.head - n, ..self.advanced() }, Ok(Action::Running))
                },
                Op::Output(n) => (self.advanced(), Ok(Action::Output { byte: self.cell(), count: n })),
                Op::Input(n) => (self, Ok(Action::Input { count: n })),
                Op::JumpZero(t) => if self.cell() == 0 {
                    (Machine { instruction: t as int, ..self }, Ok(Action::Running))
                } else {
                    (self.advanced(), Ok(Action::Running))
                },
                Op::JumpNonZero(t) => if self.cell() != 0 {
                    (Machine { instruction: t as int, ..self }, Ok(Action::Running))
                } else {
                    (self.advanced(), Ok(Action::Running))
                },
            }
        }
    }

    /// Steps at most `fuel` times, stopping at the first step that does not
    /// answer `Running`.
    pub open spec fn run_spec(self, fuel: nat) -> (Machine, Result<Action, RuntimeError>)
        decreases fuel,
    {
        if fuel == 0 {
            (self, Ok(Action::Running))
        } else {
            let (next, r) = self.step_spec();
            if r == Ok::<Action, RuntimeError>(Action::Running) {
                next.run_spec((fuel - 1) as nat)
            } else {
                (next, r)
            }
        }
    }

    /// The current instruction reads `count` bytes.
    pub open spec fn awaits_input(self) -> bool {
        0 <= self.instruction < self.program.len() && self.program[self.instruction] is Input
    }

    /// Completes a pending input instruction with the bytes supplied: the
    /// cell keeps the last of the bytes it reads.
    pub open spec fn feed_spec(self, bytes: Seq<u8>) -> (Machine, Result<(), RuntimeError>) {
        let n = self.program[self.instruction]->Input_0;
        if bytes.len() < n {
            (self, Err(RuntimeError::InputExhausted))
        } else if n == 0 {
            (self.advanced(), Ok(()))
        } else {
            (
                Machine { tape: self.tape.update(self.head, bytes[n - 1]), ..self.advanced() },
                Ok(()),
            )
        }
    }
}

/// An interpreter: a program, a tape of `TAPE_LEN` cells, a cursor and an
/// instruction pointer.
pub struct State {
    head: usize,
    instruction: usize,
    program: Vec<Op>,
    tape: Vec<u8>,
}

impl View for State {
    type V = Machine;

    closed spec fn view(&self) -> Machine {
        Machine {
            program: self.program@,
            tape: self.tape@,
            head: self.head as int,
            instruction: self.instruction as int,
        }
    }
}

impl State {
    #[verifier::type_invariant]
    spec fn inv(&self) -> bool {
        self@.valid()
    }

    /// A machine at the start of `program`, on a zeroed tape with the cursor
    /// on cell 0.
    pub fn new(program: Vec<Op>) -> (r: State)
        ensures
            r@.program == program@,
            r@.tape == Seq::new(TAPE_LEN as nat, |i: int| 0u8),
            r@.head == 0,
            r@.instruction == 0,
    {
        let tape = vec![0u8; TAPE_LEN];
        let r = State { head: 0, instruction: 0, program, tape };
        assert(r@.tape =~= Seq::new(TAPE_LEN as nat, |i: int| 0u8));
        r
    }

    /// Runs one instruction; see `Machine::step_spec`.
    pub fn step(&mut self) -> (r: Result<Action, RuntimeError>)
        ensures
            (final(self)@, r) == old(self)@.step_spec(),
    {
        proof {
            use_type_invariant(&*self);
        }
        if self.instruction >= self.program.len() {
            return Ok(Action::Halted);
        }
        let cell = self.tape[self.head];
        match self.program[self.instruction] {
            Op::Inc(n) => {
                self.tape[self.head] = cell.wrapping_add(n);
            },
            Op::Dec(n) => {
                self.tape[self.head] = cell.wrapping_sub(n);
            },
            Op::Right(n) => {
                if n >= TAPE_LEN - self.head {
                    return Err(RuntimeError::Overflow);
                }
                self.head = self.head + n;
            },
            Op::Left(n) => {
                if n > self.head {
                    return Err(RuntimeError::Underflow);
                }
                self.head = self.head - n;
            },
            Op::Output(n) => {
                self.instruction = self.instruction + 1;
                return Ok(Action::Output { byte: cell, count: n });
            },
            Op::Input(n) => {
                return Ok(Action::Input { count: n });
            },
            Op::JumpZero(t) => {
                if cell == 0 {
                    self.instruction = t;
                    return Ok(Action::Running);
                }
            },
            Op::JumpNonZero(t) => {
                if cell != 0 {
                    self.instruction = t;
                    return Ok(Action::Running);
                }
            },
        }
        self.instruction = self.instruction + 1;
        Ok(Action::Running)
    }

    /// Steps until an instruction needs the caller (output, input), the
    /// program ends, an error occurs, or `fuel` steps have run.
    pub fn run(&mut self, fuel: u64) -> (r: Result<Action, RuntimeError>)
        ensures
            (final(self)@, r) == old(self)@.run_spec(fuel as nat),
    {
        let mut left = fuel;
        while left > 0
            invariant
                self@.run_spec(left as nat) == old(self)@.run_spec(fuel as nat),
            decreases left,
        {
            let r = self.step();
            match r {
                Ok(Action::Running) => {},
                _ => {
                    return r;
                },
            }
            left = left - 1;
        }
        Ok(Action::Running)
    }

    /// The byte count of the pending input instruction, if the current
    /// instruction is one.
    pub fn awaiting_input(&self) -> (r: Option<u8>)
        ensures
            r is Some <==> self@.awaits_input(),
            r matches Some(n) ==> self@.program[self@.instruction] == Op::Input(n),
    {
        if self.instruction < self.program.len() {
            if let Op::Input(n) = self.program[self.instruction] {
                return Some(n);
            }
        }
        None
    }

    /// Completes the pending input instruction with the bytes read for it.
    pub fn feed(&mut self, bytes: &Vec<u8>) -> (r: Result<(), RuntimeError>)
        requires
            old(self)@.awaits_input(),
        ensures
            (final(self)@, r) == old(self)@.feed_spec(bytes@),
    {
        proof {
            use_type_invariant(&*self);
        }
        let n = match self.program[self.instruction] {
            Op::Input(n) => n as usize,
            _ => 0,
        };
        if bytes.len() < n {
            return Err(RuntimeError::InputExhausted);
        }
        if n > 0 {
            self.tape[self.head] = bytes[n - 1];
        }
        assert(self.instruction < self.program.len());
        self.instruction = self.instruction + 1;
        Ok(())
    }

    /// Index of the next instruction to run.
    pub fn instruction(&self) -> (r: usize)
        ensures
            r == self@.instruction,
    {
        self.instruction
    }

    /// Position of the cursor.
    pub fn head(&self) -> (r: usize)
        ensures
            r == self@.head,
            r < TAPE_LEN,
    {
        proof {
            use_type_invariant(self);
        }
        self.head
    }

    /// The value of cell `i`.
    pub fn cell(&self, i: usize) -> (r: u8)
        requires
            i < TAPE_LEN,
        ensures
            r == self@.tape[i as int],
    {
        proof {
            use_type_invariant(self);
        }
        self.tape[i]
    }

    /// The program being run.
    pub fn program(&self) -> (r: &Vec<Op>)
        ensures
            r@ == self@.program,
    {
        &self.program
    }
}

/// The program only changes cells and moves the cursor: no input, output
/// or jump.
pub open spec fn straight_line(p: Seq<Op>) -> bool {
    forall|i: int|
        0 <= i < p.len() ==> (#[trigger] p[i] is Inc || p[i] is Dec || p[i] is Right
            || p[i] is Left)
}

proof fn lemma_straight_line_from(m: Machine, fuel: nat)
    requires
        m.valid(),
        straight_line(m.program),
        m.instruction <= m.program.len(),
        fuel > m.program.len() - m.instruction,
    ensures
        ({
            let (end, r) = m.run_spec(fuel);
            ||| r == Ok::<Action, RuntimeError>(Action::Halted) && end.instruction
                == m.program.len()
            ||| r == Err::<Action, RuntimeError>(RuntimeError::Overflow)
            ||| r == Err::<Action, RuntimeError>(RuntimeError::Underflow)
        }),
    decreases fuel,
{
    let (next, r) = m.step_spec();
    if m.instruction < m.program.len() {
        let op = m.program[m.instruction];
        assert(op is Inc || op is Dec || op is Right || op is Left);
        if r == Ok::<Action, RuntimeError>(Action::Running) {
            assert(next.valid());
            assert(next.program == m.program);
            assert(next.instruction == m.instruction + 1);
            lemma_straight_line_from(next, (fuel - 1) as nat);
        }
    }
}

/// A program without input, output or jumps, run from its first instruction
/// with more steps allowed than it has instructions, halts with the
/// instruction pointer at its length, unless the cursor leaves the tape.
pub proof fn lemma_straight_line_halts(m: Machine, fuel: nat)
    requires
        m.valid(),
        straight_line(m.program),
        m.instruction == 0,
        fuel > m.program.len(),
    ensures
        ({
            let (end, r) = m.run_spec(fuel);
            ||| r == Ok::<Action, RuntimeError>(Action::Halted) && end.instruction
                == m.program.len()
            ||| r == Err::<Action, RuntimeError>(RuntimeError::Overflow)
            ||| r == Err::<Action, RuntimeError>(RuntimeError::Underflow)
        }),
{
    lemma_straight_line_from(m, fuel);
}

} // verus!
