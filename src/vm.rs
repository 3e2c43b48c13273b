use vstd::prelude::*;

verus! {

/// One instruction of the stack machine.
#[derive(Debug, Clone, Copy, PartialEq, Eq, Structural)]
pub enum Instr {
    /// Pushes an immediate value.
    Imm(i64),
    /// Stands for the value of a named variable. Names are given no storage,
    /// so the machine faults on it.
    Load,
    /// Pops `b`, then `a`, and pushes `a + b`.
    Add,
    /// Pops `b`, then `a`, and pushes `a - b`.
    Sub,
    /// Pops `b`, then `a`, and pushes `a * b`.
    Mul,
    /// Pops `b`, then `a`, and pushes `a / b`, rounded toward zero.
    Div,
    /// Pops `b`, then `a`, and pushes the remainder of `a / b`.
    Mod,
    /// Pops a value and prints it.
    Prtf,
    /// Halts the program.
    Lev,
}

/// A fault that stops the machine.
#[derive(Debug, Clone, Copy, PartialEq, Eq, Structural)]
pub enum RuntimeError {
    /// The instruction at `at` needs `needed` operands; the stack held `available`.
    StackUnderflow { at: usize, needed: usize, available: usize },
    /// The instruction at `at` divides by zero.
    DivisionByZero { at: usize },
    /// The result of the instruction at `at` does not fit in `i64`.
    Overflow { at: usize },
    /// The instruction at `at` reads a name, which has no storage.
    UnboundName { at: usize },
}

/// How many operands an instruction pops.
pub open spec fn arity(ins: Instr) -> nat {
    match ins {
        Instr::Add | Instr::Sub | Instr::Mul | Instr::Div | Instr::Mod => 2,
        Instr::Prtf => 1,
        _ => 0,
    }
}

/// The result of an arithmetic instruction on `a` and `b`, or `None` where it
/// is undefined or does not fit in `i64`.
pub open spec fn apply(op: Instr, a: i64, b: i64) -> Option<i64> {
    match op {
        Instr::Add => a.checked_add(b),
        Instr::Sub => a.checked_sub(b),
        Instr::Mul => a.checked_mul(b),
        Instr::Div => a.checked_div(b),
        Instr::Mod => a.checked_rem(b),
        _ => None,
    }
}

/// What one instruction does to the machine.
pub enum Step {
    /// Go on with the next instruction, with this stack and output.
    Next(Seq<i64>, Seq<i64>),
    /// Stop without error.
    Halt,
    /// Stop on a fault.
    Fault(RuntimeError),
}

/// The effect of `ins`, at position `pc`, on the operand stack `stack` (top
/// last) and the values printed so far `out`.
pub open spec fn step(ins: Instr, pc: nat, stack: Seq<i64>, out: Seq<i64>) -> Step {
    let n = stack.len();
    if n < arity(ins) {
        Step::Fault(
            RuntimeError::StackUnderflow {
                at: pc as usize,
                needed: arity(ins) as usize,
                available: n as usize,
            },
        )
    } else {
        match ins {
            Instr::Imm(v) => Step::Next(stack.push(v), out),
            Instr::Load => Step::Fault(RuntimeError::UnboundName { at: pc as usize }),
            Instr::Lev => Step::Halt,
            Instr::Prtf => Step::Next(stack.drop_last(), out.push(stack.last())),
            _ => {
                let a = stack[n - 2];
                let b = stack[n - 1];
                if (ins is Div || ins is Mod) && b == 0 {
                    Step::Fault(RuntimeError::DivisionByZero { at: pc as usize })
                } else {
                    match apply(ins, a, b) {
                        Some(v) => Step::Next(stack.take(n - 2).push(v), out),
                        None => Step::Fault(RuntimeError::Overflow { at: pc as usize }),
                    }
                }
            },
        }
    }
}

/// The machine's run from instruction `pc` on: the final stack, all printed
/// values, and whether it ended by a fault.
pub open spec fn run_from(code: Seq<Instr>, pc: nat, stack: Seq<i64>, out: Seq<i64>) -> (
    Seq<i64>,
    Seq<i64>,
    Result<(), RuntimeError>,
)
    decreases code.len() - pc,
{
    if pc >= code.len() {
        (stack, out, Ok(()))
    } else {
        match step(code[pc as int], pc, stack, out) {
            Step::Next(s, o) => run_from(code, pc + 1, s, o),
            Step::Halt => (stack, out, Ok(())),
            Step::Fault(e) => (stack, out, Err(e)),
        }
    }
}

/// Where an instruction stands changes only the position that its fault
/// reports.
pub proof fn lemma_step_position(ins: Instr, p: nat, q: nat, stack: Seq<i64>, out: Seq<i64>)
    ensures
        step(ins, p, stack, out) is Next ==> step(ins, q, stack, out) == step(ins, p, stack, out),
        step(ins, p, stack, out) is Halt ==> step(ins, q, stack, out) is Halt,
        step(ins, p, stack, out) is Fault ==> step(ins, q, stack, out) is Fault,
{
}

/// Running code that stands after a prefix is running that code alone, up
/// to the positions that faults report.
pub proof fn lemma_run_shift(pre: Seq<Instr>, code: Seq<Instr>, q: nat, stack: Seq<i64>, out: Seq<i64>)
    ensures
        run_from(pre + code, pre.len() + q, stack, out).0 == run_from(code, q, stack, out).0,
        run_from(pre + code, pre.len() + q, stack, out).1 == run_from(code, q, stack, out).1,
        run_from(pre + code, pre.len() + q, stack, out).2 is Ok <==> run_from(code, q, stack, out).2 is Ok,
    decreases code.len() - q,
{
    if q < code.len() {
        assert((pre + code)[pre.len() + q as int] == code[q as int]);
        lemma_step_position(code[q as int], q, (pre.len() + q) as nat, stack, out);
        lemma_step_position(code[q as int], (pre.len() + q) as nat, q, stack, out);
        if let Step::Next(s, o) = step(code[q as int], q, stack, out) {
            lemma_run_shift(pre, code, q + 1, s, o);
        }
    }
}

/// Code without `Lev` runs to its end and then hands its stack and output to
/// the code after it; a fault in it is a fault of the whole.
pub proof fn lemma_run_concat(
    first: Seq<Instr>,
    second: Seq<Instr>,
    pc: nat,
    stack: Seq<i64>,
    out: Seq<i64>,
)
    requires
        pc <= first.len(),
        forall|i: int| 0 <= i < first.len() ==> first[i] != Instr::Lev,
    ensures
        ({
            let whole = run_from(first + second, pc, stack, out);
            let part = run_from(first, pc, stack, out);
            let after = run_from(second, 0, part.0, part.1);
            &&& part.2 is Err ==> whole.2 is Err
            &&& part.2 is Ok ==> whole.0 == after.0 && whole.1 == after.1 && (whole.2 is Ok
                <==> after.2 is Ok)
        }),
    decreases first.len() - pc,
{
    if pc == first.len() {
        lemma_run_shift(first, second, 0, stack, out);
    } else {
        assert((first + second)[pc as int] == first[pc as int]);
        if let Step::Next(s, o) = step(first[pc as int], pc, stack, out) {
            lemma_run_concat(first, second, pc + 1, s, o);
        }
    }
}

/// Computes an arithmetic instruction on `a` and `b`.
fn apply_op(op: Instr, a: i64, b: i64) -> (r: Option<i64>)
    requires
        arity(op) == 2,
    ensures
        r == apply(op, a, b),
{
    match op {
        Instr::Add => a.checked_add(b),
        Instr::Sub => a.checked_sub(b),
        Instr::Mul => a.checked_mul(b),
        Instr::Div => a.checked_div(b),
        _ => a.checked_rem(b),
    }
}

/// The stack machine: a program, its operand stack, and what it printed.
pub struct VM {
    pub instructions: Vec<Instr>,
    pub stack: Vec<i64>,
    pub output: Vec<i64>,
}

impl VM {
    /// Creates a machine for `instructions`, with an empty stack and nothing
    /// printed.
    pub fn new(instructions: Vec<Instr>) -> (r: VM)
        ensures
            r.instructions == instructions,
            r.stack@ == Seq::<i64>::empty(),
            r.output@ == Seq::<i64>::empty(),
    {
        VM { instructions, stack: Vec::new(), output: Vec::new() }
    }

    /// Runs the program from its first instruction until its end, a `Lev`,
    /// or a fault. Each printed value is appended to `output`.
    pub fn run(&mut self) -> (r: Result<(), RuntimeError>)
        ensures
            final(self).instructions == old(self).instructions,
            (final(self).stack@, final(self).output@, r) == run_from(
                old(self).instructions@,
                0,
                old(self).stack@,
                old(self).output@,
            ),
    {
        let ghost code = self.instructions@;
        let ghost goal = run_from(code, 0, self.stack@, self.output@);
        let mut pc: usize = 0;
        while pc < self.instructions.len()
            invariant
                self.instructions == old(self).instructions,
                code == self.instructions@,
                goal == run_from(code, 0, old(self).stack@, old(self).output@),
                pc <= code.len(),
                goal == run_from(code, pc as nat, self.stack@, self.output@),
            decreases code.len() - pc,
        {
            let ins = self.instructions[pc];
            let n = self.stack.len();
            match ins {
                Instr::Imm(v) => {
                    self.stack.push(v);
                },
                Instr::Load => {
                    return Err(RuntimeError::UnboundName { at: pc });
                },
                Instr::Lev => {
                    return Ok(());
                },
                Instr::Prtf => {
                    if n < 1 {
                        return Err(RuntimeError::StackUnderflow { at: pc, needed: 1, available: n });
                    }
                    let v = self.stack.pop().unwrap();
                    self.output.push(v);
                },
                _ => {
                    if n < 2 {
                        return Err(RuntimeError::StackUnderflow { at: pc, needed: 2, available: n });
                    }
                    let a = self.stack[n - 2];
                    let b = self.stack[n - 1];
                    if (matches!(ins, Instr::Div) || matches!(ins, Instr::Mod)) && b == 0 {
                        return Err(RuntimeError::DivisionByZero { at: pc });
                    }
                    match apply_op(ins, a, b) {
                        Some(v) => {
                            let ghost before = self.stack@;
                            self.stack.pop();
                            self.stack.pop();
                            self.stack.push(v);
                            assert(self.stack@ =~= before.take(n - 2).push(v));
                        },
                        None => {
                            return Err(RuntimeError::Overflow { at: pc });
                        },
                    }
                },
            }
            pc = pc + 1;
        }
        Ok(())
    }
}

} // verus!
