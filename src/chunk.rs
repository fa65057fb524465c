use vstd::prelude::*;
use crate::value::Value;

verus! {

/// A single-byte instruction tag.
#[derive(Clone, Copy, Debug, PartialEq, Eq, Structural)]
pub enum Opcode {
    Return,
    Constant,
    Nil,
    True,
    False,
    Neg,
    Not,
    Add,
    Sub,
    Mul,
    Div,
    Equal,
    Greater,
    Less,
    /// Stands for every byte that is no instruction; never emitted.
    Error,
}

/// The byte that encodes an opcode.
pub open spec fn opcode_byte(op: Opcode) -> u8 {
    match op {
        Opcode::Return => 0,
        Opcode::Constant => 1,
        Opcode::Nil => 2,
        Opcode::True => 3,
        Opcode::False => 4,
        Opcode::Neg => 5,
        Opcode::Not => 6,
        Opcode::Add => 7,
        Opcode::Sub => 8,
        Opcode::Mul => 9,
        Opcode::Div => 10,
        Opcode::Equal => 11,
        Opcode::Greater => 12,
        Opcode::Less => 13,
        Opcode::Error => 255,
    }
}

/// The opcode that a byte decodes to.
pub open spec fn decode(b: u8) -> Opcode {
    if b == 0 {
        Opcode::Return
    } else if b == 1 {
        Opcode::Constant
    } else if b == 2 {
        Opcode::Nil
    } else if b == 3 {
        Opcode::True
    } else if b == 4 {
        Opcode::False
    } else if b == 5 {
        Opcode::Neg
    } else if b == 6 {
        Opcode::Not
    } else if b == 7 {
        Opcode::Add
    } else if b == 8 {
        Opcode::Sub
    } else if b == 9 {
        Opcode::Mul
    } else if b == 10 {
        Opcode::Div
    } else if b == 11 {
        Opcode::Equal
    } else if b == 12 {
        Opcode::Greater
    } else if b == 13 {
        Opcode::Less
    } else {
        Opcode::Error
    }
}

/// Every opcode but the sentinel decodes back from its byte.
pub proof fn lemma_decode_encode(op: Opcode)
    requires
        op != Opcode::Error,
    ensures
        decode(opcode_byte(op)) == op,
{
}

impl From<Opcode> for u8 {
    fn from(op: Opcode) -> (r: u8) {
        match op {
            Opcode::Return => 0,
            Opcode::Constant => 1,
            Opcode::Nil => 2,
            Opcode::True => 3,
            Opcode::False => 4,
            Opcode::Neg => 5,
            Opcode::Not => 6,
            Opcode::Add => 7,
            Opcode::Sub => 8,
            Opcode::Mul => 9,
            Opcode::Div => 10,
            Opcode::Equal => 11,
            Opcode::Greater => 12,
            Opcode::Less => 13,
            Opcode::Error => 255,
        }
    }
}

impl vstd::std_specs::convert::FromSpecImpl<Opcode> for u8 {
    open spec fn obeys_from_spec() -> bool {
        true
    }

    open spec fn from_spec(op: Opcode) -> u8 {
        opcode_byte(op)
    }
}

impl From<u8> for Opcode {
    fn from(b: u8) -> (r: Opcode) {
        match b {
            0 => Opcode::Return,
            1 => Opcode::Constant,
            2 => Opcode::Nil,
            3 => Opcode::True,
            4 => Opcode::False,
            5 => Opcode::Neg,
            6 => Opcode::Not,
            7 => Opcode::Add,
            8 => Opcode::Sub,
            9 => Opcode::Mul,
            10 => Opcode::Div,
            11 => Opcode::Equal,
            12 => Opcode::Greater,
            13 => Opcode::Less,
            _ => Opcode::Error,
        }
    }
}

impl vstd::std_specs::convert::FromSpecImpl<u8> for Opcode {
    open spec fn obeys_from_spec() -> bool {
        true
    }

    open spec fn from_spec(b: u8) -> Opcode {
        decode(b)
    }
}

/// The line of each byte that a run-length line table describes: each
/// `(run_length, line)` pair stands for `run_length` bytes on `line`.
pub open spec fn expand(runs: Seq<(usize, usize)>) -> Seq<usize>
    decreases runs.len(),
{
    if runs.len() == 0 {
        Seq::empty()
    } else {
        let last = runs.last();
        expand(runs.drop_last()) + Seq::new(last.0 as nat, |i: int| last.1)
    }
}

/// One decoded instruction, as a disassembler lists it.
#[derive(Clone, Copy, Debug, PartialEq, Eq, Structural)]
pub struct Instruction {
    pub offset: usize,
    /// The source line, or `None` when it is the line of the byte before.
    pub line: Option<usize>,
    pub opcode: Opcode,
    /// The constant-pool index of a `Constant` instruction.
    pub operand: Option<u8>,
    /// The offset of the next instruction; the end of the code after an
    /// unknown opcode or a truncated instruction.
    pub next: usize,
}

/// The line table after one more byte on `line`: the last run grows when it is
/// on the same line (and has room), else a new run of one starts.
pub open spec fn record(runs: Seq<(usize, usize)>, line: usize) -> Seq<(usize, usize)> {
    if runs.len() > 0 && runs.last().1 == line && runs.last().0 < usize::MAX {
        runs.update(runs.len() - 1, ((runs.last().0 + 1) as usize, line))
    } else {
        runs.push((1usize, line))
    }
}

/// The line table that recording `lines` one by one builds from an empty one.
pub open spec fn encode(lines: Seq<usize>) -> Seq<(usize, usize)>
    decreases lines.len(),
{
    if lines.len() == 0 {
        Seq::empty()
    } else {
        record(encode(lines.drop_last()), lines.last())
    }
}

/// Recording a byte's line extends the replayed lines by exactly that line.
pub proof fn lemma_record_replays(runs: Seq<(usize, usize)>, line: usize)
    ensures
        expand(record(runs, line)) == expand(runs).push(line),
{
    if runs.len() > 0 && runs.last().1 == line && runs.last().0 < usize::MAX {
        let r = record(runs, line);
        assert(r.drop_last() == runs.drop_last());
        let last = runs.last();
        assert(Seq::new((last.0 + 1) as nat, |i: int| last.1) == Seq::new(
            last.0 as nat,
            |i: int| last.1,
        ).push(line));
    } else {
        let r = record(runs, line);
        assert(r.drop_last() == runs);
        assert(Seq::new(1nat, |i: int| line) == Seq::empty().push(line));
    }
}

/// Replaying the run-length table built from any sequence of lines gives back
/// exactly the line recorded for every offset.
pub proof fn lemma_line_table_round_trip(lines: Seq<usize>)
    ensures
        expand(encode(lines)) == lines,
    decreases lines.len(),
{
    if lines.len() > 0 {
        lemma_line_table_round_trip(lines.drop_last());
        lemma_record_replays(encode(lines.drop_last()), lines.last());
        assert(lines.drop_last().push(lines.last()) == lines);
    }
}

/// A compiled unit: bytecode, the source line of each byte (run-length
/// encoded) and a constant pool.
pub struct Chunk {
    pub code: Vec<u8>,
    /// `(run_length, line)` pairs, in the order of the bytes. Written only by
    /// `write`.
    pub lines: Vec<(usize, usize)>,
    pub constants: Vec<Value>,
}

impl Chunk {
    /// The source line of each byte of code.
    pub open spec fn line_view(&self) -> Seq<usize> {
        expand(self.lines@)
    }

    /// The line table accounts for exactly the bytes of code.
    pub open spec fn wf(&self) -> bool {
        self.line_view().len() == self.code@.len()
    }

    pub fn new() -> (r: Chunk)
        ensures
            r.wf(),
            r.code@.len() == 0,
            r.constants@.len() == 0,
            r.line_view() == Seq::<usize>::empty(),
    {
        Chunk { code: Vec::new(), lines: Vec::new(), constants: Vec::new() }
    }

    /// The source line of the byte at `offset`.
    pub fn line_at(&self, offset: usize) -> (r: usize)
        requires
            self.wf(),
            offset < self.code@.len(),
        ensures
            r == self.line_view()[offset as int],
    {
        let mut i: usize = 0;
        let mut covered: usize = 0;
        while i < self.lines.len()
            invariant
                i <= self.lines@.len(),
                covered == expand(self.lines@.subrange(0, i as int)).len(),
                covered <= offset,
                expand(self.lines@).len() == self.code@.len(),
                offset < self.code@.len(),
            decreases self.lines@.len() - i,
        {
            proof {
                self.lemma_prefix(i as int);
                self.lemma_prefix((i + 1) as int);
            }
            let (run_length, line) = self.lines[i];
            if offset - covered < run_length {
                proof {
                    self.lemma_prefix_index(i as int, offset as int);
                }
                return line;
            }
            covered = covered + run_length;
            i = i + 1;
        }
        proof {
            assert(self.lines@.subrange(0, i as int) == self.lines@);
        }
        0
    }

    proof fn lemma_prefix(&self, i: int)
        requires
            0 <= i <= self.lines@.len(),
        ensures
            i < self.lines@.len() ==> expand(self.lines@.subrange(0, i + 1)) == expand(
                self.lines@.subrange(0, i),
            ) + Seq::new(self.lines@[i].0 as nat, |j: int| self.lines@[i].1),
            expand(self.lines@.subrange(0, i)).len() <= expand(self.lines@).len(),
    {
        lemma_expand_prefix(self.lines@, i);
        if i < self.lines@.len() {
            assert(self.lines@.subrange(0, i + 1).drop_last() == self.lines@.subrange(0, i));
        }
    }

    proof fn lemma_prefix_index(&self, i: int, offset: int)
        requires
            0 <= i < self.lines@.len(),
            expand(self.lines@.subrange(0, i)).len() <= offset,
            offset < expand(self.lines@.subrange(0, i)).len() + self.lines@[i].0,
        ensures
            offset < expand(self.lines@).len(),
            expand(self.lines@)[offset] == self.lines@[i].1,
    {
        self.lemma_prefix(i);
        lemma_expand_prefix(self.lines@, i + 1);
        let pre = expand(self.lines@.subrange(0, i + 1));
        assert(self.lines@.subrange(0, i + 1).drop_last() == self.lines@.subrange(0, i));
        assert(pre[offset] == self.lines@[i].1);
    }

    /// Appends `value` to the constant pool and returns its index.
    pub fn add_constant(&mut self, value: Value) -> (r: usize)
        requires
            old(self).constants@.len() < usize::MAX,
        ensures
            final(self).constants@ == old(self).constants@.push(value),
            final(self).code@ == old(self).code@,
            final(self).line_view() == old(self).line_view(),
            r == old(self).constants@.len(),
    {
        self.constants.push(value);
        self.constants.len() - 1
    }

    /// Appends one byte of code from source line `line`.
    pub fn write(&mut self, byte: u8, line: usize)
        requires
            old(self).wf(),
        ensures
            final(self).wf(),
            final(self).code@ == old(self).code@.push(byte),
            final(self).line_view() == old(self).line_view().push(line),
            final(self).lines@ == record(old(self).lines@, line),
            final(self).constants@ == old(self).constants@,
    {
        self.code.push(byte);
        proof {
            lemma_record_replays(self.lines@, line);
        }
        let n = self.lines.len();
        if n > 0 && self.lines[n - 1].1 == line && self.lines[n - 1].0 < usize::MAX {
            let run_length = self.lines[n - 1].0;
            self.lines.set(n - 1, (run_length + 1, line));
            return;
        }
        self.lines.push((1, line));
    }
}

impl Chunk {
    /// The instruction that starts at `offset`, as `disassemble_instruction`
    /// decodes it.
    pub open spec fn decoded(&self, offset: int) -> Instruction {
        let op = decode(self.code@[offset]);
        let n = self.code@.len() as int;
        Instruction {
            offset: offset as usize,
            line: if offset > 0 && self.line_view()[offset] == self.line_view()[offset - 1] {
                None
            } else {
                Some(self.line_view()[offset])
            },
            opcode: op,
            operand: if op == Opcode::Constant && offset + 1 < n {
                Some(self.code@[offset + 1])
            } else {
                None
            },
            next: (if op == Opcode::Error || (op == Opcode::Constant && offset + 1 >= n) {
                n
            } else if op == Opcode::Constant {
                offset + 2
            } else {
                offset + 1
            }) as usize,
        }
    }

    /// Decodes the instruction at `offset`.
    pub fn disassemble_instruction(&self, offset: usize) -> (r: Instruction)
        requires
            self.wf(),
            offset < self.code@.len(),
        ensures
            r == self.decoded(offset as int),
    {
        let n = self.code.len();
        let line = self.line_at(offset);
        let shown = if offset > 0 && line == self.line_at(offset - 1) {
            None
        } else {
            Some(line)
        };
        let opcode = Opcode::from(self.code[offset]);
        match opcode {
            Opcode::Constant => {
                if offset + 1 < n {
                    Instruction {
                        offset,
                        line: shown,
                        opcode,
                        operand: Some(self.code[offset + 1]),
                        next: offset + 2,
                    }
                } else {
                    Instruction { offset, line: shown, opcode, operand: None, next: n }
                }
            },
            Opcode::Error => Instruction { offset, line: shown, opcode, operand: None, next: n },
            _ => Instruction { offset, line: shown, opcode, operand: None, next: offset + 1 },
        }
    }

    /// Decodes the whole chunk, instruction after instruction from offset 0.
    pub fn disassemble(&self) -> (r: Vec<Instruction>)
        requires
            self.wf(),
        ensures
            self.code@.len() == 0 <==> r@.len() == 0,
            r@.len() > 0 ==> r@[0].offset == 0,
            forall|i: int| 0 <= i < r@.len() ==> #[trigger] r@[i] == self.decoded(r@[i].offset as int)
                && r@[i].offset < self.code@.len(),
            forall|i: int| 0 <= i < r@.len() - 1 ==> #[trigger] r@[i + 1].offset == r@[i].next,
            r@.len() > 0 ==> r@.last().next >= self.code@.len(),
    {
        let mut out: Vec<Instruction> = Vec::new();
        let mut offset: usize = 0;
        while offset < self.code.len()
            invariant
                self.wf(),
                out@.len() == 0 ==> offset == 0,
                out@.len() > 0 ==> out@[0].offset == 0 && offset == out@.last().next,
                forall|i: int| 0 <= i < out@.len() ==> #[trigger] out@[i] == self.decoded(
                    out@[i].offset as int,
                ) && out@[i].offset < self.code@.len(),
                forall|i: int| 0 <= i < out@.len() - 1 ==> #[trigger] out@[i + 1].offset
                    == out@[i].next,
                offset <= self.code@.len(),
            decreases self.code@.len() - offset,
        {
            let ins = self.disassemble_instruction(offset);
            out.push(ins);
            offset = ins.next;
        }
        out
    }
}

/// The line table of a prefix of the runs replays a prefix of the lines.
proof fn lemma_expand_prefix(runs: Seq<(usize, usize)>, i: int)
    requires
        0 <= i <= runs.len(),
    ensures
        expand(runs.subrange(0, i)).len() <= expand(runs).len(),
        expand(runs.subrange(0, i)) == expand(runs).subrange(0, expand(runs.subrange(0, i)).len() as int),
    decreases runs.len() - i,
{
    if i < runs.len() {
        lemma_expand_prefix(runs, i + 1);
        let a = runs.subrange(0, i + 1);
        assert(a.drop_last() == runs.subrange(0, i));
    } else {
        assert(runs.subrange(0, i) == runs);
    }
}

} // verus!
