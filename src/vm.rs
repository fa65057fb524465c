use vstd::prelude::*;
use vstd::string::StringExecFns;
use crate::chunk::{Chunk, Opcode, decode, opcode_byte};
use crate::compiler::{Diagnostic, code_ok, compile, compiled, depth_after, prev_line};
use crate::lexer::tokens_from;
use crate::value::{Obj, Val, Value, is_falsey};
use crate::lexer::scans_clean;

verus! {

/// A runtime failure: its message and the source line of the instruction.
#[derive(Debug)]
pub struct RuntimeFault {
    pub message: String,
    pub line: usize,
}

/// Why an `interpret` call failed.
#[derive(Debug)]
pub enum InterpretError {
    /// The source did not compile; the diagnostics say why.
    CompileError(Vec<Diagnostic>),
    RuntimeError(RuntimeFault),
}

/// A floating-point operation that the machine needs done, on numbers given as
/// IEEE-754 bit patterns. `Neg`, `Add`, `Sub`, `Mul` and `Div` are answered
/// with a number, `Equal`, `Greater` and `Less` with a boolean.
#[derive(Clone, Copy, Debug, PartialEq, Eq, Structural)]
pub enum NumOp {
    Neg(u64),
    Add(u64, u64),
    Sub(u64, u64),
    Mul(u64, u64),
    Div(u64, u64),
    Equal(u64, u64),
    Greater(u64, u64),
    Less(u64, u64),
}

/// Where a run of the machine stopped.
#[derive(Debug)]
pub enum Step {
    /// `Return` ran; this is the expression's value.
    Done(Value),
    Failed(InterpretError),
    /// The machine waits for the result of this operation (see `resume`).
    Compute(NumOp),
}

/// What one instruction does, on the views of the stack and constants.
pub enum Effect {
    Continue(Seq<Val>),
    Finish(Val),
    Fault(Seq<char>),
    Ask(NumOp, Seq<Val>),
}

pub open spec fn underflow() -> Seq<char> {
    "Stack underflow"@
}

pub open spec fn operand_not_number() -> Seq<char> {
    "Operand must be a number"@
}

pub open spec fn operands_not_numbers() -> Seq<char> {
    "Operands must be numbers"@
}

pub open spec fn operands_not_addable() -> Seq<char> {
    "Operands must be two numbers or two strings"@
}

pub open spec fn bad_constant() -> Seq<char> {
    "Invalid constant index"@
}

pub open spec fn unknown_opcode() -> Seq<char> {
    "Unknown opcode"@
}

pub open spec fn past_end() -> Seq<char> {
    "No instruction to run"@
}

/// The bytes an instruction takes.
pub open spec fn width(b: u8) -> int {
    if decode(b) == Opcode::Constant {
        2
    } else {
        1
    }
}

/// The numeric operation of an arithmetic or comparison opcode.
pub open spec fn num_op(op: Opcode, x: u64, y: u64) -> NumOp {
    match op {
        Opcode::Add => NumOp::Add(x, y),
        Opcode::Sub => NumOp::Sub(x, y),
        Opcode::Mul => NumOp::Mul(x, y),
        Opcode::Div => NumOp::Div(x, y),
        Opcode::Equal => NumOp::Equal(x, y),
        Opcode::Greater => NumOp::Greater(x, y),
        _ => NumOp::Less(x, y),
    }
}

/// What a binary opcode does with left operand `a`, right operand `b` and the
/// rest of the stack below them.
pub open spec fn binary_effect(op: Opcode, a: Val, b: Val, rest: Seq<Val>) -> Effect {
    match (a, b) {
        (Val::Number(x), Val::Number(y)) => Effect::Ask(num_op(op, x, y), rest),
        _ => if op == Opcode::Add {
            match (a, b) {
                (Val::Str(x), Val::Str(y)) => Effect::Continue(rest.push(Val::Str(x + y))),
                _ => Effect::Fault(operands_not_addable()),
            }
        } else if op == Opcode::Equal {
            Effect::Continue(rest.push(Val::Bool(a == b)))
        } else {
            Effect::Fault(operands_not_numbers())
        },
    }
}

/// What the instruction at `ip` does to `stack`.
pub open spec fn effect(code: Seq<u8>, consts: Seq<Val>, ip: int, stack: Seq<Val>) -> Effect {
    if ip < 0 || ip >= code.len() {
        Effect::Fault(past_end())
    } else {
        let op = decode(code[ip]);
        let n = stack.len();
        match op {
            Opcode::Return => if n == 0 {
                Effect::Fault(underflow())
            } else {
                Effect::Finish(stack.last())
            },
            Opcode::Constant => if ip + 1 < code.len() && (code[ip + 1] as int) < consts.len() {
                Effect::Continue(stack.push(consts[code[ip + 1] as int]))
            } else {
                Effect::Fault(bad_constant())
            },
            Opcode::Nil => Effect::Continue(stack.push(Val::Nil)),
            Opcode::True => Effect::Continue(stack.push(Val::Bool(true))),
            Opcode::False => Effect::Continue(stack.push(Val::Bool(false))),
            Opcode::Neg => if n == 0 {
                Effect::Fault(underflow())
            } else {
                match stack.last() {
                    Val::Number(x) => Effect::Ask(NumOp::Neg(x), stack.drop_last()),
                    _ => Effect::Fault(operand_not_number()),
                }
            },
            Opcode::Not => if n == 0 {
                Effect::Fault(underflow())
            } else {
                Effect::Continue(stack.drop_last().push(Val::Bool(is_falsey(stack.last()))))
            },
            Opcode::Error => Effect::Fault(unknown_opcode()),
            _ => if n < 2 {
                Effect::Fault(underflow())
            } else {
                binary_effect(op, stack[n - 2], stack[n - 1], stack.subrange(0, n - 2))
            },
        }
    }
}

/// Runs instructions from `ip` until one finishes, faults or asks for a
/// numeric result; gives that instruction's effect and offset.
pub open spec fn run_from(code: Seq<u8>, consts: Seq<Val>, ip: int, stack: Seq<Val>) -> (
    Effect,
    int,
)
    decreases code.len() - ip,
{
    let e = effect(code, consts, ip, stack);
    match e {
        Effect::Continue(next) => if 0 <= ip < code.len() {
            run_from(code, consts, ip + width(code[ip]), next)
        } else {
            (e, ip)
        },
        _ => (e, ip),
    }
}

pub open spec fn view_stack(s: Seq<Value>) -> Seq<Val> {
    s.map_values(|v: Value| v@)
}

/// A stack machine that runs one chunk at a time.
pub struct VM {
    ip: usize,
    stack: Vec<Value>,
    chunk: Chunk,
    awaiting: bool,
}

impl VM {
    pub closed spec fn ip_view(&self) -> int {
        self.ip as int
    }

    pub closed spec fn stack_view(&self) -> Seq<Val> {
        view_stack(self.stack@)
    }

    pub closed spec fn code_view(&self) -> Seq<u8> {
        self.chunk.code@
    }

    pub closed spec fn constants_view(&self) -> Seq<Val> {
        view_stack(self.chunk.constants@)
    }

    pub closed spec fn lines_view(&self) -> Seq<usize> {
        self.chunk.line_view()
    }

    /// The machine's chunk is consistent, and a machine that waits for a
    /// result stands at an instruction of it.
    pub closed spec fn wf(&self) -> bool {
        &&& self.chunk.wf()
        &&& self.awaiting ==> self.ip < self.chunk.code@.len()
    }

    /// The machine waits for the result of a numeric operation.
    pub closed spec fn awaiting(&self) -> bool {
        self.awaiting
    }

    /// The state of a machine with nothing on its stack, at the first instruction.
    pub open spec fn is_reset(&self) -> bool {
        &&& self.ip_view() == 0
        &&& self.stack_view() == Seq::<Val>::empty()
        &&& !self.awaiting()
    }

    /// `r` is what the machine reports after running from `ip` with `stack`,
    /// and the machine's state is the one that report leaves.
    pub open spec fn reports(&self, r: &Step, ip: int, stack: Seq<Val>) -> bool {
        let (e, at) = run_from(self.code_view(), self.constants_view(), ip, stack);
        match e {
            Effect::Finish(v) => r is Done && r->Done_0@ == v && !self.awaiting(),
            Effect::Fault(m) => {
                &&& r is Failed
                &&& r->Failed_0 is RuntimeError
                &&& r->Failed_0->RuntimeError_0.message@ == m
                &&& r->Failed_0->RuntimeError_0.line == if 0 <= at < self.code_view().len() {
                    self.lines_view()[at]
                } else {
                    0
                }
                &&& self.is_reset()
            },
            Effect::Ask(op, rest) => {
                &&& r == Step::Compute(op)
                &&& self.awaiting()
                &&& self.ip_view() == at
                &&& self.stack_view() == rest
                &&& at < self.code_view().len()
            },
            Effect::Continue(_) => false,
        }
    }

    pub fn new() -> (r: VM)
        ensures
            r.is_reset(),
            r.wf(),
            r.code_view().len() == 0,
    {
        let r = VM { ip: 0, stack: Vec::new(), chunk: Chunk::new(), awaiting: false };
        proof {
            assert(view_stack(r.stack@) =~= Seq::<Val>::empty());
        }
        r
    }

    fn reset(&mut self)
        ensures
            final(self).is_reset(),
            final(self).chunk == old(self).chunk,
    {
        self.ip = 0;
        self.stack = Vec::new();
        self.awaiting = false;
        proof {
            assert(view_stack(self.stack@) =~= Seq::<Val>::empty());
        }
    }

    fn push(&mut self, value: Value)
        ensures
            final(self).stack_view() == old(self).stack_view().push(value@),
            final(self).ip == old(self).ip,
            final(self).chunk == old(self).chunk,
            final(self).awaiting == old(self).awaiting,
    {
        self.stack.push(value);
        proof {
            assert(view_stack(self.stack@) =~= view_stack(old(self).stack@).push(value@));
        }
    }

    fn pop(&mut self) -> (r: Value)
        requires
            old(self).stack@.len() > 0,
        ensures
            r@ == old(self).stack_view().last(),
            final(self).stack_view() == old(self).stack_view().drop_last(),
            final(self).stack@.len() == old(self).stack@.len() - 1,
            final(self).ip == old(self).ip,
            final(self).chunk == old(self).chunk,
            final(self).awaiting == old(self).awaiting,
    {
        let r = self.stack.pop().unwrap();
        proof {
            assert(view_stack(self.stack@) =~= view_stack(old(self).stack@).drop_last());
        }
        r
    }

    /// Stops with `message` at the current instruction and resets the machine.
    fn runtime_error(&mut self, message: &str) -> (r: Step)
        requires
            old(self).chunk.wf(),
        ensures
            r is Failed,
            r->Failed_0 is RuntimeError,
            r->Failed_0->RuntimeError_0.message@ == message@,
            r->Failed_0->RuntimeError_0.line == if old(self).ip < old(self).chunk.code@.len() {
                old(self).chunk.line_view()[old(self).ip as int]
            } else {
                0
            },
            final(self).is_reset(),
            final(self).chunk == old(self).chunk,
    {
        let line = if self.ip < self.chunk.code.len() {
            self.chunk.line_at(self.ip)
        } else {
            0
        };
        self.reset();
        Step::Failed(
            InterpretError::RuntimeError(RuntimeFault { message: String::from_str(message), line }),
        )
    }

    /// Runs the instruction at `ip`; `None` when the run goes on.
    fn execute(&mut self) -> (r: Option<Step>)
        requires
            old(self).chunk.wf(),
            !old(self).awaiting,
        ensures
            final(self).chunk == old(self).chunk,
            ({
                let e = effect(
                    old(self).code_view(),
                    old(self).constants_view(),
                    old(self).ip as int,
                    old(self).stack_view(),
                );
                match e {
                    Effect::Continue(next) => {
                        &&& r is None
                        &&& final(self).stack_view() == next
                        &&& final(self).ip == old(self).ip + width(
                            old(self).code_view()[old(self).ip as int],
                        )
                        &&& !final(self).awaiting
                    },
                    _ => r is Some && final(self).reports(
                        &r->Some_0,
                        old(self).ip as int,
                        old(self).stack_view(),
                    ),
                }
            }),
    {
        proof {
            reveal_with_fuel(run_from, 1);
        }
        if self.ip >= self.chunk.code.len() {
            proof {
                reveal_strlit("No instruction to run");
            }
            return Some(self.runtime_error("No instruction to run"));
        }
        let n = self.stack.len();
        let op = Opcode::from(self.chunk.code[self.ip]);
        match op {
            Opcode::Return => {
                if n == 0 {
                    return Some(self.runtime_error("Stack underflow"));
                }
                let v = self.pop();
                Some(Step::Done(v))
            },
            Opcode::Constant => {
                if self.ip + 1 < self.chunk.code.len() && (self.chunk.code[self.ip + 1] as usize)
                    < self.chunk.constants.len() {
                    let v = self.chunk.constants[self.chunk.code[self.ip + 1] as usize].copy();
                    self.push(v);
                    self.ip = self.ip + 2;
                    None
                } else {
                    Some(self.runtime_error("Invalid constant index"))
                }
            },
            Opcode::Nil => {
                self.push(Value::Nil);
                self.ip = self.ip + 1;
                None
            },
            Opcode::True => {
                self.push(Value::Bool(true));
                self.ip = self.ip + 1;
                None
            },
            Opcode::False => {
                self.push(Value::Bool(false));
                self.ip = self.ip + 1;
                None
            },
            Opcode::Neg => {
                if n == 0 {
                    return Some(self.runtime_error("Stack underflow"));
                }
                match self.stack[n - 1] {
                    Value::Number(x) => {
                        self.pop();
                        self.awaiting = true;
                        Some(Step::Compute(NumOp::Neg(x)))
                    },
                    _ => Some(self.runtime_error("Operand must be a number")),
                }
            },
            Opcode::Not => {
                if n == 0 {
                    return Some(self.runtime_error("Stack underflow"));
                }
                let v = self.pop();
                self.push(Value::Bool(v.is_falsey()));
                self.ip = self.ip + 1;
                None
            },
            Opcode::Error => Some(self.runtime_error("Unknown opcode")),
            _ => {
                if n < 2 {
                    return Some(self.runtime_error("Stack underflow"));
                }
                self.binary(op)
            },
        }
    }

    /// Runs a binary opcode on the two values on top of the stack.
    fn binary(&mut self, op: Opcode) -> (r: Option<Step>)
        requires
            old(self).chunk.wf(),
            !old(self).awaiting,
            old(self).ip < old(self).chunk.code@.len(),
            op == decode(old(self).chunk.code@[old(self).ip as int]),
            op != Opcode::Return && op != Opcode::Constant && op != Opcode::Nil && op
                != Opcode::True && op != Opcode::False && op != Opcode::Neg && op != Opcode::Not
                && op != Opcode::Error,
            old(self).stack@.len() >= 2,
        ensures
            final(self).chunk == old(self).chunk,
            ({
                let st = old(self).stack_view();
                let n = st.len() as int;
                let e = binary_effect(op, st[n - 2], st[n - 1], st.subrange(0, n - 2));
                match e {
                    Effect::Continue(next) => {
                        &&& r is None
                        &&& final(self).stack_view() == next
                        &&& final(self).ip == old(self).ip + 1
                        &&& !final(self).awaiting
                    },
                    _ => r is Some && final(self).reports(
                        &r->Some_0,
                        old(self).ip as int,
                        old(self).stack_view(),
                    ),
                }
            }),
    {
        proof {
            reveal_with_fuel(run_from, 1);
            let st = old(self).stack_view();
            let n = st.len() as int;
            assert(st.drop_last().drop_last() =~= st.subrange(0, n - 2));
        }
        let code_len = self.chunk.code.len();
        let b = self.pop();
        let a = self.pop();
        match (a, b) {
            (Value::Number(x), Value::Number(y)) => {
                self.awaiting = true;
                let q = match op {
                    Opcode::Add => NumOp::Add(x, y),
                    Opcode::Sub => NumOp::Sub(x, y),
                    Opcode::Mul => NumOp::Mul(x, y),
                    Opcode::Div => NumOp::Div(x, y),
                    Opcode::Equal => NumOp::Equal(x, y),
                    Opcode::Greater => NumOp::Greater(x, y),
                    _ => NumOp::Less(x, y),
                };
                Some(Step::Compute(q))
            },
            (a, b) => {
                if op == Opcode::Add {
                    match (a, b) {
                        (Value::Obj(x), Value::Obj(y)) => {
                            let Obj::String(s) = *x;
                            let Obj::String(t) = *y;
                            let joined = s.concat(t.as_str());
                            self.push(Value::string(joined));
                            self.ip = self.ip + 1;
                            None
                        },
                        _ => Some(
                            self.runtime_error("Operands must be two numbers or two strings"),
                        ),
                    }
                } else if op == Opcode::Equal {
                    let same = a == b;
                    self.push(Value::Bool(same));
                    self.ip = self.ip + 1;
                    None
                } else {
                    Some(self.runtime_error("Operands must be numbers"))
                }
            },
        }
    }

    /// Runs until the expression's value is returned, a runtime error stops
    /// the machine (which is then reset), or a numeric result is needed.
    fn run(&mut self) -> (r: Step)
        requires
            old(self).chunk.wf(),
            !old(self).awaiting,
        ensures
            final(self).chunk == old(self).chunk,
            final(self).reports(&r, old(self).ip as int, old(self).stack_view()),
    {
        loop
            invariant
                self.chunk == old(self).chunk,
                self.chunk.wf(),
                !self.awaiting,
                run_from(self.code_view(), self.constants_view(), old(self).ip as int, old(
                    self,
                ).stack_view()) == run_from(
                    self.code_view(),
                    self.constants_view(),
                    self.ip as int,
                    self.stack_view(),
                ),
            decreases self.chunk.code@.len() - self.ip,
        {
            let ghost ip0 = self.ip as int;
            let ghost st0 = self.stack_view();
            proof {
                reveal_with_fuel(run_from, 1);
            }
            match self.execute() {
                Some(step) => {
                    return step;
                },
                None => {
                    proof {
                        assert(ip0 < self.chunk.code@.len());
                    }
                },
            }
        }
    }

    /// Compiles `source` and runs it on a reset machine. `numbers` holds the
    /// values of the number literals, in order (see `compile`). What it
    /// reports depends only on `source` and `numbers` (see `runs_source`).
    pub fn interpret(&mut self, source: &str, numbers: &Vec<u64>) -> (r: Step)
        requires
            old(self).wf(),
            source@.len() < usize::MAX,
        ensures
            final(self).wf(),
            r is Failed && r->Failed_0 is CompileError ==> final(self).is_reset(),
            !scans_clean(source@, 0) ==> r is Failed && r->Failed_0 is CompileError,
            compiled(source@, numbers@) is None <==> (r is Failed && r->Failed_0 is CompileError),
            runs_source(*final(self), r, source@, numbers@),
            match compiled(source@, numbers@) {
                Some(st) => final(self).code_view() == st.1.push(opcode_byte(Opcode::Return))
                    && final(self).constants_view() == st.2 && final(self).lines_view() == st.4.push(
                    prev_line(tokens_from(source@, 0), st),
                ),
                None => true,
            },
            !(r is Failed && r->Failed_0 is CompileError) ==> final(self).reports(
                &r,
                0,
                Seq::empty(),
            ),
            !(r is Failed && r->Failed_0 is CompileError) ==> sound_at(
                final(self).code_view(),
                final(self).constants_view().len(),
                0,
                0,
            ),
    {
        self.reset();
        match compile(source, numbers) {
            Ok(chunk) => {
                proof {
                    lemma_compiled_chunk_is_sound(chunk);
                }
                self.interpret_chunk(chunk)
            },
            Err(e) => Step::Failed(e),
        }
    }

    /// Runs `chunk` on a reset machine.
    pub fn interpret_chunk(&mut self, chunk: Chunk) -> (r: Step)
        requires
            chunk.wf(),
        ensures
            final(self).wf(),
            final(self).code_view() == chunk.code@,
            final(self).lines_view() == chunk.line_view(),
            final(self).constants_view() == view_stack(chunk.constants@),
            final(self).reports(&r, 0, Seq::empty()),
    {
        self.reset();
        self.chunk = chunk;
        self.run()
    }

    /// Whether the machine waits for a numeric result.
    pub fn is_awaiting(&self) -> (r: bool)
        ensures
            r == self.awaiting(),
    {
        self.awaiting
    }

    /// Hands the machine the result of the operation it asked for, and runs on.
    pub fn resume(&mut self, result: Value) -> (r: Step)
        requires
            old(self).wf(),
            old(self).awaiting(),
        ensures
            final(self).wf(),
            final(self).code_view() == old(self).code_view(),
            final(self).constants_view() == old(self).constants_view(),
            final(self).lines_view() == old(self).lines_view(),
            final(self).reports(
                &r,
                old(self).ip_view() + 1,
                old(self).stack_view().push(result@),
            ),
    {
        let code_len = self.chunk.code.len();
        self.awaiting = false;
        self.push(result);
        self.ip = self.ip + 1;
        self.run()
    }
}

/// What a report says, on views.
pub enum Outcome {
    Value(Val),
    Fault(Seq<char>, usize),
    Compute(NumOp),
    NotCompiled,
}

pub open spec fn outcome(r: &Step) -> Outcome {
    match r {
        Step::Done(v) => Outcome::Value(v@),
        Step::Failed(InterpretError::RuntimeError(f)) => Outcome::Fault(f.message@, f.line),
        Step::Failed(InterpretError::CompileError(_)) => Outcome::NotCompiled,
        Step::Compute(op) => Outcome::Compute(*op),
    }
}

/// `vm` and `r` are what interpreting `source` leaves: a compile error when the
/// tokens form no expression, else the machine loaded with the compiled code,
/// constants and lines, and `r` the report of running it from a reset state.
pub open spec fn runs_source(vm: VM, r: Step, source: Seq<char>, nums: Seq<u64>) -> bool {
    match compiled(source, nums) {
        None => r is Failed && r->Failed_0 is CompileError,
        Some(st) => {
            &&& vm.code_view() == st.1.push(opcode_byte(Opcode::Return))
            &&& vm.constants_view() == st.2
            &&& vm.lines_view() == st.4.push(prev_line(tokens_from(source, 0), st))
            &&& vm.reports(&r, 0, Seq::empty())
        },
    }
}

/// Interpreting a source on a machine that has run other sources before (and
/// failed on them) reports exactly what a fresh machine reports.
pub proof fn lemma_same_source_same_outcome(
    a: VM,
    b: VM,
    ra: Step,
    rb: Step,
    source: Seq<char>,
    nums: Seq<u64>,
)
    requires
        runs_source(a, ra, source, nums),
        runs_source(b, rb, source, nums),
    ensures
        outcome(&ra) == outcome(&rb),
{
    if compiled(source, nums) is Some {
        lemma_reusable(a, b, ra, rb);
    }
}

/// A machine is safe to reuse: what a run from a reset state reports depends
/// only on the chunk, not on what the machine did before, and a runtime error
/// leaves the machine reset for the next run.
pub proof fn lemma_reusable(a: VM, b: VM, ra: Step, rb: Step)
    requires
        a.code_view() == b.code_view(),
        a.constants_view() == b.constants_view(),
        a.lines_view() == b.lines_view(),
        a.reports(&ra, 0, Seq::empty()),
        b.reports(&rb, 0, Seq::empty()),
    ensures
        outcome(&ra) == outcome(&rb),
        outcome(&ra) is Fault ==> a.is_reset() && b.is_reset(),
{
}

/// `==` never holds between values of different kinds: it pushes `false`.
pub proof fn lemma_equality_across_kinds(a: Val, b: Val, rest: Seq<Val>)
    requires
        !(a is Number && b is Number),
        !(a is Bool && b is Bool),
        !(a is Nil && b is Nil),
        !(a is Str && b is Str),
    ensures
        binary_effect(Opcode::Equal, a, b, rest) == Effect::Continue(rest.push(Val::Bool(false))),
{
}

/// From `ip` on, `code` holds the rest of one expression, for a stack of
/// `depth` values, and then `Return`; every `Constant` in it has an index
/// below `n`.
pub open spec fn sound_at(code: Seq<u8>, n: nat, ip: int, depth: int) -> bool {
    &&& 0 <= ip < code.len()
    &&& code.last() == opcode_byte(Opcode::Return)
    &&& code_ok(code.subrange(ip, code.len() as int), n)
    &&& depth_after(code.subrange(ip, code.len() - 1), depth) == Some(1int)
}

/// A runtime error about the kinds of the operands.
pub open spec fn type_fault(m: Seq<char>) -> bool {
    m == operand_not_number() || m == operands_not_numbers() || m == operands_not_addable()
}

/// Code that the compiler produces only fails on operands of the wrong kind:
/// from any point of it that a run reaches, the run ends with the value, a
/// type error, or a numeric request after which (whatever the answer) the
/// rest of the code is again in that shape.
pub proof fn lemma_compiled_code_only_fails_on_types(
    code: Seq<u8>,
    consts: Seq<Val>,
    ip: int,
    stack: Seq<Val>,
)
    requires
        sound_at(code, consts.len(), ip, stack.len() as int),
    ensures
        ({
            let (e, at) = run_from(code, consts, ip, stack);
            &&& e is Fault ==> type_fault(e->Fault_0)
            &&& e is Ask ==> sound_at(code, consts.len(), at + 1, e->Ask_1.len() + 1int)
        }),
    decreases code.len() - ip,
{
    let len = code.len() as int;
    let c = code.subrange(ip, len);
    let body = code.subrange(ip, len - 1);
    let d = stack.len() as int;
    if ip == len - 1 {
        assert(body.len() == 0);
        assert(code[ip] == code.last());
    } else {
        assert(body[0] == code[ip]);
        assert(c[0] == code[ip]);
        let op = decode(code[ip]);
        if op == Opcode::Constant {
            assert(c.subrange(2, c.len() as int) == code.subrange(ip + 2, len));
            assert(body.subrange(2, body.len() as int) == code.subrange(ip + 2, len - 1));
            assert(c[1] == code[ip + 1]);
            lemma_compiled_code_only_fails_on_types(
                code,
                consts,
                ip + 2,
                stack.push(consts[code[ip + 1] as int]),
            );
        } else {
            assert(c.subrange(1, c.len() as int) == code.subrange(ip + 1, len));
            assert(body.subrange(1, body.len() as int) == code.subrange(ip + 1, len - 1));
            match effect(code, consts, ip, stack) {
                Effect::Continue(next) => {
                    lemma_compiled_code_only_fails_on_types(code, consts, ip + 1, next);
                },
                _ => {},
            }
        }
    }
}

/// A chunk with the shape that `compile` promises is sound from its start on
/// an empty stack, so running it fails only on operand kinds.
pub proof fn lemma_compiled_chunk_is_sound(chunk: Chunk)
    requires
        code_ok(chunk.code@, chunk.constants@.len()),
        chunk.code@.len() > 0,
        chunk.code@.last() == opcode_byte(Opcode::Return),
        depth_after(chunk.code@.drop_last(), 0) == Some(1int),
    ensures
        sound_at(chunk.code@, view_stack(chunk.constants@).len(), 0, 0),
{
    let c = chunk.code@;
    assert(c.subrange(0, c.len() as int) == c);
    assert(c.subrange(0, c.len() - 1) == c.drop_last());
}

} // verus!
