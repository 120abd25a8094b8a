use vstd::prelude::*;

use crate::object::{Function, ObjString};

verus! {

/// The instructions of the bytecode, in the order of their numbers.
#[derive(Clone, Copy, PartialEq, Eq, Structural, Debug)]
pub enum OpCode {
    Constant,
    Nil,
    True,
    False,
    Equal,
    Greater,
    Less,
    Add,
    Subtract,
    Multiply,
    Divide,
    Negate,
    Not,
    Print,
    Return,
    Pop,
    GetLocal,
    SetLocal,
    GetGlobal,
    DefineGlobal,
    SetGlobal,
    GetProperty,
    SetProperty,
    GetUpvalue,
    SetUpvalue,
    GetSuper,
    Jump,
    JumpIfFalse,
    Loop,
    Call,
    Invoke,
    SuperInvoke,
    Closure,
    CloseUpvalue,
    Class,
    Inherit,
    Method,
}

/// How many instructions there are: the numbers `0..OPCODE_COUNT` are the
/// instructions, every other byte is none.
pub const OPCODE_COUNT: u8 = 37;

impl OpCode {
    /// The number of an instruction in the bytecode.
    pub open spec fn spec_u8(self) -> u8 {
        match self {
            OpCode::Constant => 0,
            OpCode::Nil => 1,
            OpCode::True => 2,
            OpCode::False => 3,
            OpCode::Equal => 4,
            OpCode::Greater => 5,
            OpCode::Less => 6,
            OpCode::Add => 7,
            OpCode::Subtract => 8,
            OpCode::Multiply => 9,
            OpCode::Divide => 10,
            OpCode::Negate => 11,
            OpCode::Not => 12,
            OpCode::Print => 13,
            OpCode::Return => 14,
            OpCode::Pop => 15,
            OpCode::GetLocal => 16,
            OpCode::SetLocal => 17,
            OpCode::GetGlobal => 18,
            OpCode::DefineGlobal => 19,
            OpCode::SetGlobal => 20,
            OpCode::GetProperty => 21,
            OpCode::SetProperty => 22,
            OpCode::GetUpvalue => 23,
            OpCode::SetUpvalue => 24,
            OpCode::GetSuper => 25,
            OpCode::Jump => 26,
            OpCode::JumpIfFalse => 27,
            OpCode::Loop => 28,
            OpCode::Call => 29,
            OpCode::Invoke => 30,
            OpCode::SuperInvoke => 31,
            OpCode::Closure => 32,
            OpCode::CloseUpvalue => 33,
            OpCode::Class => 34,
            OpCode::Inherit => 35,
            OpCode::Method => 36,
        }
    }

    /// The number of this instruction in the bytecode.
    pub fn u8(&self) -> (b: u8)
        ensures
            b == self.spec_u8(),
    {
        match self {
            OpCode::Constant => 0,
            OpCode::Nil => 1,
            OpCode::True => 2,
            OpCode::False => 3,
            OpCode::Equal => 4,
            OpCode::Greater => 5,
            OpCode::Less => 6,
            OpCode::Add => 7,
            OpCode::Subtract => 8,
            OpCode::Multiply => 9,
            OpCode::Divide => 10,
            OpCode::Negate => 11,
            OpCode::Not => 12,
            OpCode::Print => 13,
            OpCode::Return => 14,
            OpCode::Pop => 15,
            OpCode::GetLocal => 16,
            OpCode::SetLocal => 17,
            OpCode::GetGlobal => 18,
            OpCode::DefineGlobal => 19,
            OpCode::SetGlobal => 20,
            OpCode::GetProperty => 21,
            OpCode::SetProperty => 22,
            OpCode::GetUpvalue => 23,
            OpCode::SetUpvalue => 24,
            OpCode::GetSuper => 25,
            OpCode::Jump => 26,
            OpCode::JumpIfFalse => 27,
            OpCode::Loop => 28,
            OpCode::Call => 29,
            OpCode::Invoke => 30,
            OpCode::SuperInvoke => 31,
            OpCode::Closure => 32,
            OpCode::CloseUpvalue => 33,
            OpCode::Class => 34,
            OpCode::Inherit => 35,
            OpCode::Method => 36,
        }
    }

    /// The instruction that the byte `b` stands for, if any.
    pub open spec fn spec_from_u8(b: u8) -> Option<OpCode> {
        if b == 0 {
            Some(OpCode::Constant)
        } else if b == 1 {
            Some(OpCode::Nil)
        } else if b == 2 {
            Some(OpCode::True)
        } else if b == 3 {
            Some(OpCode::False)
        } else if b == 4 {
            Some(OpCode::Equal)
        } else if b == 5 {
            Some(OpCode::Greater)
        } else if b == 6 {
            Some(OpCode::Less)
        } else if b == 7 {
            Some(OpCode::Add)
        } else if b == 8 {
            Some(OpCode::Subtract)
        } else if b == 9 {
            Some(OpCode::Multiply)
        } else if b == 10 {
            Some(OpCode::Divide)
        } else if b == 11 {
            Some(OpCode::Negate)
        } else if b == 12 {
            Some(OpCode::Not)
        } else if b == 13 {
            Some(OpCode::Print)
        } else if b == 14 {
            Some(OpCode::Return)
        } else if b == 15 {
            Some(OpCode::Pop)
        } else if b == 16 {
            Some(OpCode::GetLocal)
        } else if b == 17 {
            Some(OpCode::SetLocal)
        } else if b == 18 {
            Some(OpCode::GetGlobal)
        } else if b == 19 {
            Some(OpCode::DefineGlobal)
        } else if b == 20 {
            Some(OpCode::SetGlobal)
        } else if b == 21 {
            Some(OpCode::GetProperty)
        } else if b == 22 {
            Some(OpCode::SetProperty)
        } else if b == 23 {
            Some(OpCode::GetUpvalue)
        } else if b == 24 {
            Some(OpCode::SetUpvalue)
        } else if b == 25 {
            Some(OpCode::GetSuper)
        } else if b == 26 {
            Some(OpCode::Jump)
        } else if b == 27 {
            Some(OpCode::JumpIfFalse)
        } else if b == 28 {
            Some(OpCode::Loop)
        } else if b == 29 {
            Some(OpCode::Call)
        } else if b == 30 {
            Some(OpCode::Invoke)
        } else if b == 31 {
            Some(OpCode::SuperInvoke)
        } else if b == 32 {
            Some(OpCode::Closure)
        } else if b == 33 {
            Some(OpCode::CloseUpvalue)
        } else if b == 34 {
            Some(OpCode::Class)
        } else if b == 35 {
            Some(OpCode::Inherit)
        } else if b == 36 {
            Some(OpCode::Method)
        } else {
            None
        }
    }

    /// The instruction that the byte `b` stands for, if any.
    pub fn from_u8(b: u8) -> (op: Option<OpCode>)
        ensures
            op == Self::spec_from_u8(b),
    {
        match b {
            0 => Some(OpCode::Constant),
            1 => Some(OpCode::Nil),
            2 => Some(OpCode::True),
            3 => Some(OpCode::False),
            4 => Some(OpCode::Equal),
            5 => Some(OpCode::Greater),
            6 => Some(OpCode::Less),
            7 => Some(OpCode::Add),
            8 => Some(OpCode::Subtract),
            9 => Some(OpCode::Multiply),
            10 => Some(OpCode::Divide),
            11 => Some(OpCode::Negate),
            12 => Some(OpCode::Not),
            13 => Some(OpCode::Print),
            14 => Some(OpCode::Return),
            15 => Some(OpCode::Pop),
            16 => Some(OpCode::GetLocal),
            17 => Some(OpCode::SetLocal),
            18 => Some(OpCode::GetGlobal),
            19 => Some(OpCode::DefineGlobal),
            20 => Some(OpCode::SetGlobal),
            21 => Some(OpCode::GetProperty),
            22 => Some(OpCode::SetProperty),
            23 => Some(OpCode::GetUpvalue),
            24 => Some(OpCode::SetUpvalue),
            25 => Some(OpCode::GetSuper),
            26 => Some(OpCode::Jump),
            27 => Some(OpCode::JumpIfFalse),
            28 => Some(OpCode::Loop),
            29 => Some(OpCode::Call),
            30 => Some(OpCode::Invoke),
            31 => Some(OpCode::SuperInvoke),
            32 => Some(OpCode::Closure),
            33 => Some(OpCode::CloseUpvalue),
            34 => Some(OpCode::Class),
            35 => Some(OpCode::Inherit),
            36 => Some(OpCode::Method),
            _ => None,
        }
    }
}

/// Decoding a byte gives back the instruction it was encoded from.
pub proof fn lemma_opcode_roundtrip(op: OpCode)
    ensures
        OpCode::spec_from_u8(op.spec_u8()) == Some(op),
        op.spec_u8() < OPCODE_COUNT,
{
}

/// A byte stands for an instruction exactly when it is below `OPCODE_COUNT`,
/// and then it is that instruction's number.
pub proof fn lemma_opcode_decode(b: u8)
    ensures
        OpCode::spec_from_u8(b) is Some <==> b < OPCODE_COUNT,
        OpCode::spec_from_u8(b) matches Some(op) ==> op.spec_u8() == b,
{
}

/// Two instructions have the same number only if they are the same instruction.
pub proof fn lemma_opcode_injective(a: OpCode, b: OpCode)
    ensures
        a.spec_u8() == b.spec_u8() <==> a == b,
{
    lemma_opcode_roundtrip(a);
    lemma_opcode_roundtrip(b);
}


/// A value in the constant table of a chunk, as the compiler makes it.
#[derive(Debug)]
pub enum Constant {
    /// A number literal, held as its source text; the machine that runs the
    /// chunk reads it as a number.
    Number(String),
    /// A string: the name of a variable, property or method, or the contents of a
    /// string literal.
    Str(ObjString),
    /// A compiled function.
    Function(Box<Function>),
}

/// A chunk of bytecode: the instructions, the constants they refer to, and for
/// each byte of code the source line it was compiled from.
#[derive(Debug)]
pub struct Chunk {
    pub code: Vec<u8>,
    pub constants: Vec<Constant>,
    pub lines: Vec<usize>,
}

impl Chunk {
    /// Every byte of code has its line.
    pub open spec fn wf(&self) -> bool {
        self.lines.len() == self.code.len()
    }

    /// An empty chunk.
    pub fn new() -> (c: Chunk)
        ensures
            c.code@.len() == 0,
            c.constants@.len() == 0,
            c.lines@.len() == 0,
    {
        Chunk { code: Vec::new(), constants: Vec::new(), lines: Vec::new() }
    }

    /// Appends a byte of code, compiled from line `line`.
    pub fn write_chunk(&mut self, byte: u8, line: usize)
        ensures
            final(self).code@ == old(self).code@.push(byte),
            final(self).lines@ == old(self).lines@.push(line),
            final(self).constants@ == old(self).constants@,
    {
        self.code.push(byte);
        self.lines.push(line);
    }

    /// Appends a constant and returns its index in the constant table.
    pub fn add_constant(&mut self, value: Constant) -> (idx: usize)
        ensures
            final(self).constants@ == old(self).constants@.push(value),
            idx == old(self).constants@.len(),
            final(self).code@ == old(self).code@,
            final(self).lines@ == old(self).lines@,
    {
        self.constants.push(value);
        self.constants.len() - 1
    }
}

/// One instruction of a chunk as the disassembler shows it.
#[derive(Debug, PartialEq, Eq)]
pub struct Disassembled {
    /// Where the instruction starts.
    pub offset: usize,
    /// Its source line, or `None` when that is the line of the byte before it.
    pub line: Option<usize>,
    /// The instruction byte.
    pub byte: u8,
    /// The instruction the byte stands for, if any.
    pub op: Option<OpCode>,
    /// For a `Constant` instruction, the index of its constant.
    pub constant: Option<u8>,
    /// Where the next instruction starts.
    pub next: usize,
}

impl Chunk {
    /// Whether the disassembler can read an instruction at `offset`: there is a
    /// byte there, and a `Constant` instruction has an operand that names a constant.
    pub open spec fn can_disassemble_at(&self, offset: int) -> bool {
        &&& self.wf()
        &&& 0 <= offset < self.code@.len()
        &&& self.code@[offset] == OpCode::Constant.spec_u8() ==> offset + 1 < self.code@.len()
            && self.code@[offset + 1] < self.constants@.len()
    }

    /// Reads the instruction at `offset`: a `Constant` instruction takes two bytes,
    /// every other byte one; the line is left out when it repeats the line of the byte before.
    pub fn disassemble_instruction(&self, offset: usize) -> (d: Disassembled)
        requires
            self.can_disassemble_at(offset as int),
        ensures
            d.offset == offset,
            d.byte == self.code@[offset as int],
            d.op == OpCode::spec_from_u8(d.byte),
            d.line == (if offset > 0 && self.lines@[offset as int] == self.lines@[offset - 1] {
                None
            } else {
                Some(self.lines@[offset as int])
            }),
            d.op == Some(OpCode::Constant) ==> d.constant == Some(self.code@[offset + 1])
                && d.next == offset + 2,
            d.op != Some(OpCode::Constant) ==> d.constant is None && d.next == offset + 1,
    {
        let line = if offset > 0 && self.lines[offset] == self.lines[offset - 1] {
            None
        } else {
            Some(self.lines[offset])
        };
        let byte = self.code[offset];
        let op = OpCode::from_u8(byte);
        match op {
            Some(OpCode::Constant) => {
                proof {
                    lemma_opcode_decode(byte);
                }
                Disassembled {
                    offset,
                    line,
                    byte,
                    op,
                    constant: Some(self.code[offset + 1]),
                    next: offset + 2,
                }
            },
            _ => Disassembled { offset, line, byte, op, constant: None, next: offset + 1 },
        }
    }
}

// ---------------------------------------------------------------------------
// The layout of instructions
// ---------------------------------------------------------------------------

/// Instructions without operands.
pub open spec fn is_simple_op(op: OpCode) -> bool {
    match op {
        OpCode::Nil | OpCode::True | OpCode::False | OpCode::Equal | OpCode::Greater
        | OpCode::Less | OpCode::Add | OpCode::Subtract | OpCode::Multiply | OpCode::Divide
        | OpCode::Negate | OpCode::Not | OpCode::Print | OpCode::Return | OpCode::Pop
        | OpCode::CloseUpvalue | OpCode::Inherit => true,
        _ => false,
    }
}

/// Instructions whose one operand is the index of a constant.
pub open spec fn has_constant_operand(op: OpCode) -> bool {
    match op {
        OpCode::Constant | OpCode::GetGlobal | OpCode::DefineGlobal | OpCode::SetGlobal
        | OpCode::GetProperty | OpCode::SetProperty | OpCode::GetSuper | OpCode::Class
        | OpCode::Method => true,
        _ => false,
    }
}

/// Instructions whose one operand is a byte: a slot, an upvalue or an argument count.
pub open spec fn has_byte_operand(op: OpCode) -> bool {
    match op {
        OpCode::GetLocal | OpCode::SetLocal | OpCode::GetUpvalue | OpCode::SetUpvalue
        | OpCode::Call => true,
        _ => false,
    }
}

/// Instructions whose operand is a 16-bit jump distance.
pub open spec fn is_jump_op(op: OpCode) -> bool {
    match op {
        OpCode::Jump | OpCode::JumpIfFalse | OpCode::Loop => true,
        _ => false,
    }
}

/// Instructions whose operands are a method-name constant and an argument count.
pub open spec fn is_invoke_op(op: OpCode) -> bool {
    match op {
        OpCode::Invoke | OpCode::SuperInvoke => true,
        _ => false,
    }
}

/// The number of captured variables of the function that constant `c` holds, if it holds one.
pub open spec fn function_upvalues(consts: Seq<Constant>, c: int) -> Option<nat> {
    if 0 <= c < consts.len() {
        match consts[c] {
            Constant::Function(f) => Some(f.upvalue_count as nat),
            _ => None,
        }
    } else {
        None
    }
}

/// The length of the instruction at `i`: one byte for the opcode and its
/// operands; a closure is followed by two bytes per captured variable of its
/// function. Zero when no well-formed instruction starts at `i`.
pub open spec fn instr_len(code: Seq<u8>, consts: Seq<Constant>, i: int) -> int {
    if !(0 <= i < code.len()) {
        0
    } else {
        match OpCode::spec_from_u8(code[i]) {
            None => 0,
            Some(op) => {
                if is_simple_op(op) {
                    1
                } else if has_constant_operand(op) {
                    if i + 1 < code.len() && code[i + 1] < consts.len() {
                        2
                    } else {
                        0
                    }
                } else if has_byte_operand(op) {
                    2
                } else if is_jump_op(op) {
                    3
                } else if is_invoke_op(op) {
                    if i + 1 < code.len() && code[i + 1] < consts.len() {
                        3
                    } else {
                        0
                    }
                } else {
                    // Closure
                    if i + 1 < code.len() && function_upvalues(consts, code[i + 1] as int) is Some {
                        2 + 2 * (function_upvalues(consts, code[i + 1] as int)->0 as int)
                    } else {
                        0
                    }
                }
            },
        }
    }
}

/// Whether decoding instruction by instruction from `i` arrives at `j`: every
/// instruction on the way is well formed.
pub open spec fn reaches(code: Seq<u8>, consts: Seq<Constant>, i: int, j: int) -> bool
    decreases j - i,
{
    if i == j {
        true
    } else if i > j {
        false
    } else {
        let n = instr_len(code, consts, i);
        n > 0 && i + n <= j && reaches(code, consts, i + n, j)
    }
}

/// The whole code is a sequence of well-formed instructions.
pub open spec fn decodes(code: Seq<u8>, consts: Seq<Constant>) -> bool {
    reaches(code, consts, 0, code.len() as int)
}

/// The constants of `a` are the first constants of `b`.
pub open spec fn consts_grow(a: Seq<Constant>, b: Seq<Constant>) -> bool {
    &&& a.len() <= b.len()
    &&& forall|k: int| 0 <= k < a.len() ==> #[trigger] b[k] == a[k]
}

impl Chunk {
    /// The code of this chunk is a sequence of well-formed instructions.
    pub open spec fn decodes(&self) -> bool {
        decodes(self.code@, self.constants@)
    }
}

/// A walk only goes forward.
pub proof fn lemma_reaches_forward(code: Seq<u8>, consts: Seq<Constant>, i: int, j: int)
    requires
        reaches(code, consts, i, j),
    ensures
        i <= j,
{
}

/// Walks compose.
pub proof fn lemma_reaches_trans(code: Seq<u8>, consts: Seq<Constant>, i: int, j: int, l: int)
    requires
        reaches(code, consts, i, j),
        reaches(code, consts, j, l),
    ensures
        reaches(code, consts, i, l),
    decreases j - i,
{
    if i != j {
        let n = instr_len(code, consts, i);
        lemma_reaches_trans(code, consts, i + n, j, l);
        lemma_reaches_forward(code, consts, j, l);
    }
}

/// A walk that arrives at `j` goes on over the well-formed instruction at `j`.
pub proof fn lemma_reaches_step(code: Seq<u8>, consts: Seq<Constant>, i: int, j: int)
    requires
        reaches(code, consts, i, j),
        instr_len(code, consts, j) > 0,
    ensures
        reaches(code, consts, i, j + instr_len(code, consts, j)),
{
    let n = instr_len(code, consts, j);
    assert(reaches(code, consts, j + n, j + n));
    assert(reaches(code, consts, j, j + n));
    lemma_reaches_trans(code, consts, i, j, j + n);
}

/// Decoding is deterministic: of two places a walk arrives at, the walk arrives at
/// the later one from the earlier one.
pub proof fn lemma_reaches_det(code: Seq<u8>, consts: Seq<Constant>, i: int, a: int, b: int)
    requires
        reaches(code, consts, i, a),
        reaches(code, consts, i, b),
        a <= b,
    ensures
        reaches(code, consts, a, b),
    decreases a - i,
{
    if i != a {
        let n = instr_len(code, consts, i);
        lemma_reaches_det(code, consts, i + n, a, b);
    }
}

/// A well-formed instruction keeps its length when bytes are added after the code
/// and constants after the constants.
pub proof fn lemma_instr_len_extend(
    code: Seq<u8>,
    consts: Seq<Constant>,
    code2: Seq<u8>,
    consts2: Seq<Constant>,
    i: int,
)
    requires
        instr_len(code, consts, i) > 0,
        code.len() <= code2.len(),
        code2.subrange(0, code.len() as int) == code,
        consts_grow(consts, consts2),
    ensures
        instr_len(code2, consts2, i) == instr_len(code, consts, i),
{
    assert(code2[i] == code[i]);
    if i + 1 < code.len() {
        assert(code2[i + 1] == code[i + 1]);
        let c = code[i + 1] as int;
        if 0 <= c < consts.len() {
            assert(consts2[c] == consts[c]);
        }
    }
}

/// Adding bytes after the code and constants after the constants keeps every walk.
pub proof fn lemma_reaches_extend(
    code: Seq<u8>,
    consts: Seq<Constant>,
    code2: Seq<u8>,
    consts2: Seq<Constant>,
    i: int,
    j: int,
)
    requires
        reaches(code, consts, i, j),
        code.len() <= code2.len(),
        code2.subrange(0, code.len() as int) == code,
        consts_grow(consts, consts2),
    ensures
        reaches(code2, consts2, i, j),
    decreases j - i,
{
    if i != j {
        let n = instr_len(code, consts, i);
        lemma_instr_len_extend(code, consts, code2, consts2, i);
        lemma_reaches_extend(code, consts, code2, consts2, i + n, j);
    }
}

/// Appending one well-formed instruction to well-formed code gives well-formed code.
pub proof fn lemma_decodes_append(
    code: Seq<u8>,
    consts: Seq<Constant>,
    consts2: Seq<Constant>,
    instr: Seq<u8>,
)
    requires
        decodes(code, consts),
        consts_grow(consts, consts2),
        instr_len(code + instr, consts2, code.len() as int) == instr.len(),
        instr.len() > 0,
    ensures
        decodes(code + instr, consts2),
        forall|j: int| reaches(code, consts, 0, j) ==> #[trigger] reaches(code + instr, consts2, 0, j),
{
    let code2 = code + instr;
    assert(code2.subrange(0, code.len() as int) =~= code);
    assert forall|j: int| reaches(code, consts, 0, j) implies #[trigger] reaches(code2, consts2, 0, j) by {
        lemma_reaches_extend(code, consts, code2, consts2, 0, j);
    }
    lemma_reaches_step(code2, consts2, 0, code.len() as int);
}

/// The two operand bytes of a jump are never where an instruction starts.
pub proof fn lemma_jump_operands_skipped(code: Seq<u8>, consts: Seq<Constant>, o: int, j: int)
    requires
        o >= 1,
        reaches(code, consts, 0, o - 1),
        OpCode::spec_from_u8(code[o - 1]) matches Some(op) && is_jump_op(op),
        reaches(code, consts, 0, j),
    ensures
        j != o && j != o + 1,
{
    if j >= o {
        lemma_reaches_det(code, consts, 0, o - 1, j);
        assert(instr_len(code, consts, o - 1) == 3);
        lemma_reaches_forward(code, consts, o + 2, j);
    }
}

/// Rewriting the operand of a jump keeps every walk from `i` that does not start
/// inside the operand.
pub proof fn lemma_reaches_patch(
    code: Seq<u8>,
    consts: Seq<Constant>,
    o: int,
    hi: u8,
    lo: u8,
    i: int,
    j: int,
)
    requires
        1 <= o,
        o + 1 < code.len(),
        OpCode::spec_from_u8(code[o - 1]) matches Some(op) && is_jump_op(op),
        reaches(code, consts, i, j),
        i != o && i != o + 1,
        i < o ==> reaches(code, consts, i, o - 1),
    ensures
        reaches(code.update(o, hi).update(o + 1, lo), consts, i, j),
    decreases j - i,
{
    let code2 = code.update(o, hi).update(o + 1, lo);
    if i != j {
        let n = instr_len(code, consts, i);
        assert(code2[i] == code[i]);
        if i + 1 < code.len() && i + 1 != o {
            assert(code2[i + 1] == code[i + 1]);
        }
        assert(instr_len(code2, consts, i) == n);
        if i < o - 1 {
            lemma_reaches_forward(code, consts, i + n, o - 1);
        }
        lemma_reaches_patch(code, consts, o, hi, lo, i + n, j);
    }
}


/// Whether the byte at `p` is a jump instruction.
pub open spec fn is_jump_at(code: Seq<u8>, p: int) -> bool {
    OpCode::spec_from_u8(code[p]) matches Some(op) && is_jump_op(op)
}

/// The distance operand of the jump instruction at `p`: two bytes, high byte first.
pub open spec fn jump_distance(code: Seq<u8>, p: int) -> int {
    code[p + 1] as int * 256 + code[p + 2] as int
}

/// Where the jump instruction at `p` goes: `Loop` goes back by its distance, the
/// other jumps forward, both counted from the end of the instruction.
pub open spec fn jump_target(code: Seq<u8>, p: int) -> int {
    if code[p] == OpCode::Loop.spec_u8() {
        p + 3 - jump_distance(code, p)
    } else {
        p + 3 + jump_distance(code, p)
    }
}

/// Every jump instruction of the code, except those at `exempt`, lands where an
/// instruction starts or at the end of the code.
pub open spec fn jumps_land_except(code: Seq<u8>, consts: Seq<Constant>, exempt: Set<int>) -> bool {
    forall|p: int|
        #[trigger] reaches(code, consts, 0, p) && 0 <= p < code.len() && is_jump_at(code, p)
            && !exempt.contains(p) ==> reaches(code, consts, 0, jump_target(code, p))
}

/// Every jump instruction of the code lands where an instruction starts or at the
/// end of the code.
pub open spec fn jumps_land(code: Seq<u8>, consts: Seq<Constant>) -> bool {
    jumps_land_except(code, consts, Set::empty())
}

/// Two places where instructions start are at least an instruction apart.
pub proof fn lemma_walk_apart(code: Seq<u8>, consts: Seq<Constant>, q: int, p: int)
    requires
        reaches(code, consts, 0, q),
        reaches(code, consts, 0, p),
        q < p,
    ensures
        q + instr_len(code, consts, q) <= p,
{
    lemma_reaches_det(code, consts, 0, q, p);
}

/// Where a walk over longer code arrives, within well-formed shorter code, the
/// walk over the shorter code arrives too.
pub proof fn lemma_reaches_restrict(
    code: Seq<u8>,
    consts: Seq<Constant>,
    code2: Seq<u8>,
    consts2: Seq<Constant>,
    i: int,
    p: int,
)
    requires
        reaches(code, consts, i, code.len() as int),
        code.len() <= code2.len(),
        code2.subrange(0, code.len() as int) == code,
        consts_grow(consts, consts2),
        reaches(code2, consts2, i, p),
        p <= code.len(),
    ensures
        reaches(code, consts, i, p),
    decreases p - i,
{
    if i != p {
        let n = instr_len(code, consts, i);
        lemma_instr_len_extend(code, consts, code2, consts2, i);
        lemma_reaches_restrict(code, consts, code2, consts2, i + n, p);
    }
}

/// Appending a well-formed instruction keeps the jumps of the code landing; the
/// new instruction, if a jump, must land or be exempt.
pub proof fn lemma_jumps_append(
    code: Seq<u8>,
    consts: Seq<Constant>,
    consts2: Seq<Constant>,
    instr: Seq<u8>,
    exempt: Set<int>,
    exempt2: Set<int>,
)
    requires
        decodes(code, consts),
        jumps_land_except(code, consts, exempt),
        consts_grow(consts, consts2),
        instr.len() > 0,
        instr_len(code + instr, consts2, code.len() as int) == instr.len(),
        exempt.subset_of(exempt2),
        is_jump_at(code + instr, code.len() as int) && !exempt2.contains(code.len() as int) ==> reaches(
            code + instr,
            consts2,
            0,
            jump_target(code + instr, code.len() as int),
        ),
    ensures
        jumps_land_except(code + instr, consts2, exempt2),
{
    let code2 = code + instr;
    let len = code.len() as int;
    lemma_decodes_append(code, consts, consts2, instr);
    assert(code2.subrange(0, len) =~= code);
    lemma_reaches_extend(code, consts, code2, consts2, 0, len);
    assert forall|p: int|
        #[trigger] reaches(code2, consts2, 0, p) && 0 <= p < code2.len() && is_jump_at(code2, p)
            && !exempt2.contains(p) implies reaches(code2, consts2, 0, jump_target(code2, p)) by {
        if p < len {
            lemma_reaches_restrict(code, consts, code2, consts2, 0, p);
            assert(code2[p] == code[p]);
            lemma_walk_apart(code, consts, p, len);
            assert(code2[p + 1] == code[p + 1]);
            assert(code2[p + 2] == code[p + 2]);
            assert(jump_target(code2, p) == jump_target(code, p));
            lemma_reaches_extend(code, consts, code2, consts2, 0, jump_target(code, p));
        } else if p > len {
            lemma_walk_apart(code2, consts2, len, p);
        }
    }
}

/// Filling in the distance of the jump at `o - 1` keeps the other jumps of the
/// code landing; the filled-in jump must land.
pub proof fn lemma_jumps_patch(
    code: Seq<u8>,
    consts: Seq<Constant>,
    o: int,
    hi: u8,
    lo: u8,
    exempt: Set<int>,
)
    requires
        decodes(code, consts),
        jumps_land_except(code, consts, exempt),
        1 <= o,
        o + 1 < code.len(),
        reaches(code, consts, 0, o - 1),
        is_jump_at(code, o - 1),
        reaches(
            code.update(o, hi).update(o + 1, lo),
            consts,
            0,
            jump_target(code.update(o, hi).update(o + 1, lo), o - 1),
        ),
    ensures
        jumps_land_except(code.update(o, hi).update(o + 1, lo), consts, exempt.remove(o - 1)),
{
    let code2 = code.update(o, hi).update(o + 1, lo);
    lemma_reaches_patch(code, consts, o, hi, lo, 0, o - 1);
    assert(code2.update(o, code[o]).update(o + 1, code[o + 1]) =~= code);
    assert forall|p: int|
        #[trigger] reaches(code2, consts, 0, p) && 0 <= p < code2.len() && is_jump_at(code2, p)
            && !exempt.remove(o - 1).contains(p) implies reaches(code2, consts, 0, jump_target(code2, p)) by {
        if p != o - 1 {
            lemma_jump_operands_skipped(code2, consts, o, p);
            lemma_reaches_patch(code2, consts, o, code[o], code[o + 1], 0, p);
            assert(code2[p] == code[p]);
            assert(instr_len(code, consts, p) == 3);
            lemma_walk_apart(code, consts, p, code.len() as int);
            if p < o - 1 {
                lemma_walk_apart(code, consts, p, o - 1);
            } else {
                lemma_walk_apart(code, consts, o - 1, p);
            }
            assert(code2[p + 1] == code[p + 1]);
            assert(code2[p + 2] == code[p + 2]);
            assert(jump_target(code2, p) == jump_target(code, p));
            lemma_reaches_patch(code, consts, o, hi, lo, 0, jump_target(code, p));
        }
    }
}

/// Adding constants keeps the jumps of well-formed code landing.
pub proof fn lemma_jumps_more_constants(
    code: Seq<u8>,
    consts: Seq<Constant>,
    consts2: Seq<Constant>,
    exempt: Set<int>,
)
    requires
        decodes(code, consts),
        jumps_land_except(code, consts, exempt),
        consts_grow(consts, consts2),
    ensures
        decodes(code, consts2),
        jumps_land_except(code, consts2, exempt),
        forall|j: int| reaches(code, consts, 0, j) ==> #[trigger] reaches(code, consts2, 0, j),
{
    let len = code.len() as int;
    assert(code.subrange(0, len) =~= code);
    assert forall|j: int| reaches(code, consts, 0, j) implies #[trigger] reaches(code, consts2, 0, j) by {
        lemma_reaches_extend(code, consts, code, consts2, 0, j);
    }
    assert forall|p: int|
        #[trigger] reaches(code, consts2, 0, p) && 0 <= p < code.len() && is_jump_at(code, p)
            && !exempt.contains(p) implies reaches(code, consts2, 0, jump_target(code, p)) by {
        lemma_reaches_restrict(code, consts, code, consts2, 0, p);
    }
}

/// A well-formed function: at most 255 parameters, 255 captured variables and 256
/// constants (so that a byte names each), and code that is a sequence of
/// well-formed instructions whose jumps all land where an instruction starts and
/// which names only captured variables the function has; and so is every
/// function among its constants, and so on.
pub open spec fn function_ok(f: Function) -> bool
    decreases f,
{
    &&& f.arity <= 255
    &&& f.upvalue_count <= 255
    &&& f.chunk.constants@.len() <= 256
    &&& decodes(f.chunk.code@, f.chunk.constants@)
    &&& jumps_land(f.chunk.code@, f.chunk.constants@)
    &&& captures_within(f.chunk.code@, f.chunk.constants@, f.upvalue_count as int)
    &&& forall|k: int|
        0 <= k < f.chunk.constants@.len() ==> match #[trigger] f.chunk.constants@[k] {
            Constant::Function(g) => function_ok(*g),
            _ => true,
        }
}

/// A constant that is a function is `function_ok`.
pub open spec fn constant_ok(c: Constant) -> bool {
    match c {
        Constant::Function(g) => function_ok(*g),
        _ => true,
    }
}

/// In well-formed code, the disassembler can read the instruction at every place
/// where an instruction starts.
pub proof fn lemma_decoded_can_disassemble(c: Chunk, p: int)
    requires
        c.wf(),
        c.decodes(),
        reaches(c.code@, c.constants@, 0, p),
        p < c.code@.len(),
    ensures
        c.can_disassemble_at(p),
{
    lemma_reaches_det(c.code@, c.constants@, 0, p, c.code@.len() as int);
    assert(instr_len(c.code@, c.constants@, p) > 0);
    lemma_reaches_forward(c.code@, c.constants@, 0, p);
    lemma_opcode_roundtrip(OpCode::Constant);
}

/// Instructions that read or write a captured variable of the running closure.
pub open spec fn is_upvalue_op(op: OpCode) -> bool {
    match op {
        OpCode::GetUpvalue | OpCode::SetUpvalue => true,
        _ => false,
    }
}

/// The instruction at `p` names only captured variables below `n`: the operand
/// of a read or write of a captured variable, and for a closure, each captured
/// variable that it takes from the function around it (flag 0; flag 1 takes a
/// local slot).
pub open spec fn captures_ok_at(code: Seq<u8>, consts: Seq<Constant>, p: int, n: int) -> bool {
    &&& (OpCode::spec_from_u8(code[p]) matches Some(op) && is_upvalue_op(op) ==> code[p + 1] < n)
    &&& (code[p] == OpCode::Closure.spec_u8() ==> forall|i: int|
        #![trigger code[p + 2 + 2 * i]]
        0 <= i < (function_upvalues(consts, code[p + 1] as int)->0) ==> {
            &&& code[p + 2 + 2 * i] <= 1
            &&& (code[p + 2 + 2 * i] == 0 ==> code[p + 3 + 2 * i] < n)
        })
}

/// Every instruction of the code names only captured variables below `n`.
pub open spec fn captures_within(code: Seq<u8>, consts: Seq<Constant>, n: int) -> bool {
    forall|p: int|
        #[trigger] reaches(code, consts, 0, p) && 0 <= p < code.len() ==> captures_ok_at(code, consts, p, n)
}

/// An instruction that names only captured variables below `n` keeps doing so
/// when bytes are added after it, constants after the constants, and `n` grows.
pub proof fn lemma_captures_ok_extend(
    code: Seq<u8>,
    consts: Seq<Constant>,
    code2: Seq<u8>,
    consts2: Seq<Constant>,
    p: int,
    n: int,
    n2: int,
)
    requires
        captures_ok_at(code, consts, p, n),
        instr_len(code, consts, p) > 0,
        p + instr_len(code, consts, p) <= code.len(),
        code.len() <= code2.len(),
        code2.subrange(0, code.len() as int) == code,
        consts_grow(consts, consts2),
        n <= n2,
    ensures
        captures_ok_at(code2, consts2, p, n2),
{
    let len = code.len() as int;
    assert(code2[p] == code[p]);
    lemma_instr_len_extend(code, consts, code2, consts2, p);
    if p + 1 < len {
        assert(code2[p + 1] == code[p + 1]);
    }
    if code[p] == OpCode::Closure.spec_u8() {
        lemma_opcode_roundtrip(OpCode::Closure);
        let c = code[p + 1] as int;
        assert(consts2[c] == consts[c]);
        let m = function_upvalues(consts, c)->0;
        assert forall|i: int| #![trigger code2[p + 2 + 2 * i]] 0 <= i < m implies {
            &&& code2[p + 2 + 2 * i] <= 1
            &&& (code2[p + 2 + 2 * i] == 0 ==> code2[p + 3 + 2 * i] < n2)
        } by {
            assert(code2[p + 2 + 2 * i] == code[p + 2 + 2 * i]);
            assert(code2[p + 3 + 2 * i] == code[p + 3 + 2 * i]);
        }
    }
}

/// Appending a well-formed instruction that names only captured variables below
/// `n2` to code that names only captured variables below `n <= n2` gives code that
/// names only captured variables below `n2`.
pub proof fn lemma_captures_append(
    code: Seq<u8>,
    consts: Seq<Constant>,
    consts2: Seq<Constant>,
    instr: Seq<u8>,
    n: int,
    n2: int,
)
    requires
        decodes(code, consts),
        captures_within(code, consts, n),
        consts_grow(consts, consts2),
        instr.len() > 0,
        instr_len(code + instr, consts2, code.len() as int) == instr.len(),
        captures_ok_at(code + instr, consts2, code.len() as int, n2),
        n <= n2,
    ensures
        captures_within(code + instr, consts2, n2),
{
    let code2 = code + instr;
    let len = code.len() as int;
    lemma_decodes_append(code, consts, consts2, instr);
    assert(code2.subrange(0, len) =~= code);
    lemma_reaches_extend(code, consts, code2, consts2, 0, len);
    assert forall|p: int| #[trigger] reaches(code2, consts2, 0, p) && 0 <= p < code2.len() implies captures_ok_at(
        code2,
        consts2,
        p,
        n2,
    ) by {
        if p < len {
            lemma_reaches_restrict(code, consts, code2, consts2, 0, p);
            lemma_reaches_det(code, consts, 0, p, len);
            lemma_walk_apart(code, consts, p, len);
            lemma_captures_ok_extend(code, consts, code2, consts2, p, n, n2);
        } else if p > len {
            lemma_walk_apart(code2, consts2, len, p);
        }
    }
}

/// Naming only captured variables below `n` is kept when `n` grows and when
/// constants are added.
pub proof fn lemma_captures_more(
    code: Seq<u8>,
    consts: Seq<Constant>,
    consts2: Seq<Constant>,
    n: int,
    n2: int,
)
    requires
        decodes(code, consts),
        captures_within(code, consts, n),
        consts_grow(consts, consts2),
        n <= n2,
    ensures
        captures_within(code, consts2, n2),
{
    let len = code.len() as int;
    assert(code.subrange(0, len) =~= code);
    assert forall|p: int| #[trigger] reaches(code, consts2, 0, p) && 0 <= p < code.len() implies captures_ok_at(
        code,
        consts2,
        p,
        n2,
    ) by {
        lemma_reaches_restrict(code, consts, code, consts2, 0, p);
        lemma_reaches_det(code, consts, 0, p, len);
        lemma_walk_apart(code, consts, p, len);
        lemma_captures_ok_extend(code, consts, code, consts2, p, n, n2);
    }
}

/// Filling in the distance of a jump keeps the code naming only captured
/// variables below `n`.
pub proof fn lemma_captures_patch(
    code: Seq<u8>,
    consts: Seq<Constant>,
    o: int,
    hi: u8,
    lo: u8,
    n: int,
)
    requires
        decodes(code, consts),
        captures_within(code, consts, n),
        1 <= o,
        o + 1 < code.len(),
        reaches(code, consts, 0, o - 1),
        is_jump_at(code, o - 1),
    ensures
        captures_within(code.update(o, hi).update(o + 1, lo), consts, n),
{
    let code2 = code.update(o, hi).update(o + 1, lo);
    let len = code.len() as int;
    lemma_reaches_patch(code, consts, o, hi, lo, 0, o - 1);
    assert(code2.update(o, code[o]).update(o + 1, code[o + 1]) =~= code);
    assert forall|p: int| #[trigger] reaches(code2, consts, 0, p) && 0 <= p < code2.len() implies captures_ok_at(
        code2,
        consts,
        p,
        n,
    ) by {
        lemma_jump_operands_skipped(code2, consts, o, p);
        lemma_reaches_patch(code2, consts, o, code[o], code[o + 1], 0, p);
        lemma_reaches_det(code, consts, 0, p, len);
        lemma_walk_apart(code, consts, p, len);
        if p != o - 1 {
            assert(code2[p] == code[p]);
            let k = instr_len(code, consts, p);
            if p < o - 1 {
                lemma_walk_apart(code, consts, p, o - 1);
            } else {
                lemma_walk_apart(code, consts, o - 1, p);
            }
            assert forall|j: int| p <= j < p + k implies code2[j] == code[j] by {}
            if p + 1 < len {
                assert(code2[p + 1] == code[p + 1]);
            }
            if code[p] == OpCode::Closure.spec_u8() {
                lemma_opcode_roundtrip(OpCode::Closure);
                let m = function_upvalues(consts, code[p + 1] as int)->0;
                assert forall|i: int| #![trigger code2[p + 2 + 2 * i]] 0 <= i < m implies {
                    &&& code2[p + 2 + 2 * i] <= 1
                    &&& (code2[p + 2 + 2 * i] == 0 ==> code2[p + 3 + 2 * i] < n)
                } by {
                    assert(code2[p + 2 + 2 * i] == code[p + 2 + 2 * i]);
                    assert(code2[p + 3 + 2 * i] == code[p + 3 + 2 * i]);
                }
            }
        } else {
            lemma_opcode_roundtrip(OpCode::Closure);
            lemma_opcode_roundtrip(OpCode::GetUpvalue);
            lemma_opcode_roundtrip(OpCode::SetUpvalue);
        }
    }
}

} // verus!
