use vstd::prelude::*;

use crate::chunk::{
    consts_grow, function_upvalues, has_byte_operand, has_constant_operand, instr_len, is_invoke_op,
    is_jump_op, is_simple_op, lemma_decodes_append, lemma_jump_operands_skipped,
    lemma_opcode_roundtrip, lemma_reaches_extend, lemma_reaches_patch, reaches, Chunk, Constant, OpCode,
    is_jump_at, jump_distance, jump_target, jumps_land, jumps_land_except, lemma_jumps_append, lemma_jumps_more_constants,
    lemma_jumps_patch, constant_ok, function_ok, captures_ok_at, captures_within, is_upvalue_op,
    lemma_captures_append, lemma_captures_more, lemma_captures_patch,
};
use crate::object::{default_hash, Function, ObjString};
use vstd::utf8::encode_utf8;
use crate::scanner::{
    lexes_cleanly, lemma_lexes_cleanly_step, lemma_scan_at_end, lemma_scan_progress, push_char, spec_scan,
    ScanStep, Scanner, Token, TokenKind,
};

verus! {

/// What a successful compile of `source` gives: the source has no lexical
/// error, and the result is the top-level script (empty name, no parameters, no
/// captured variables) whose code has a line for every byte and ends by returning
/// `nil`, and which is well formed (`function_ok`): its code, and that of every
/// function compiled inside it, is a sequence of well-formed instructions whose
/// jumps all land where an instruction starts.
pub open spec fn compiled_source(source: Seq<char>, f: Function) -> bool {
    &&& lexes_cleanly(source, 0, 1)
    &&& f.name@.len() == 0
    &&& f.arity == 0
    &&& f.upvalue_count == 0
    &&& f.chunk.wf()
    &&& function_ok(f)
    &&& f.chunk.code@.len() >= 2
    &&& f.chunk.code@[f.chunk.code@.len() - 2] == OpCode::Nil.spec_u8()
    &&& f.chunk.code@[f.chunk.code@.len() - 1] == OpCode::Return.spec_u8()
}

/// Compiles `source` as the top-level script. A source with a lexical error
/// never compiles, and a failure carries at least one diagnostic. A source of
/// `print` and expression statements over numbers, literals, unary and binary
/// operators, `and`, `or` and parentheses compiles, to the code `spec_script` gives it followed
/// by `Nil`, `Return`, with its numbers as the constants.
pub fn compile(source: &str) -> (r: Result<Function, CompileError>)
    requires
        source@.len() < usize::MAX,
    ensures
        r != Err::<Function, CompileError>(CompileError::AlreadyRan),
        r matches Err(CompileError::HadErrors(d)) ==> d@.len() > 0,
        r matches Ok(f) ==> compiled_source(source@, f),
        !lexes_cleanly(source@, 0, 1) ==> r is Err,
        spec_script(source@) matches Some(sc) ==> (r matches Ok(f) && f.chunk.code@ == sc.code + seq![
            OpCode::Nil.spec_u8(),
            OpCode::Return.spec_u8(),
        ] && f.chunk.constants@.len() == sc.numbers.len() && forall|k: int|
            0 <= k < sc.numbers.len() ==> is_number(#[trigger] f.chunk.constants@[k], sc.numbers[k])),
{
    let mut compiler = Compiler::new(source);
    proof {
        compiler.lemma_fresh(source@);
    }
    compiler.compile()
}

// ---------------------------------------------------------------------------
// Precedence and parse rules
// ---------------------------------------------------------------------------

/// Operator precedence, from lowest to highest.
#[derive(Clone, Copy, PartialEq, Eq, Structural, Debug)]
pub enum Precedence {
    Lowest,
    Assignment,  // =
    Or,  // or
    And,  // and
    Equality,  // == !=
    Comparison,  // < > <= >=
    Term,  // + -
    Factor,  // * /
    Unary,  // ! -
    Call,  // . ()
    Primary,
}

impl Precedence {
    /// The rank of a precedence level, from 0 (`Lowest`) to 10 (`Primary`).
    pub open spec fn rank(self) -> u8 {
        match self {
            Precedence::Lowest => 0,
            Precedence::Assignment => 1,
            Precedence::Or => 2,
            Precedence::And => 3,
            Precedence::Equality => 4,
            Precedence::Comparison => 5,
            Precedence::Term => 6,
            Precedence::Factor => 7,
            Precedence::Unary => 8,
            Precedence::Call => 9,
            Precedence::Primary => 10,
        }
    }

    /// The precedence level of a rank, if any.
    pub open spec fn of_rank(r: u8) -> Option<Precedence> {
        if r == 0 {
            Some(Precedence::Lowest)
        } else if r == 1 {
            Some(Precedence::Assignment)
        } else if r == 2 {
            Some(Precedence::Or)
        } else if r == 3 {
            Some(Precedence::And)
        } else if r == 4 {
            Some(Precedence::Equality)
        } else if r == 5 {
            Some(Precedence::Comparison)
        } else if r == 6 {
            Some(Precedence::Term)
        } else if r == 7 {
            Some(Precedence::Factor)
        } else if r == 8 {
            Some(Precedence::Unary)
        } else if r == 9 {
            Some(Precedence::Call)
        } else if r == 10 {
            Some(Precedence::Primary)
        } else {
            None
        }
    }

    /// The next higher level, and `Lowest` after the highest.
    pub open spec fn spec_next(self) -> Precedence {
        match Self::of_rank((self.rank() + 1) as u8) {
            Some(p) => p,
            None => Precedence::Lowest,
        }
    }

    pub fn to_u8(&self) -> (r: u8)
        ensures
            r == self.rank(),
    {
        match self {
            Precedence::Lowest => 0,
            Precedence::Assignment => 1,
            Precedence::Or => 2,
            Precedence::And => 3,
            Precedence::Equality => 4,
            Precedence::Comparison => 5,
            Precedence::Term => 6,
            Precedence::Factor => 7,
            Precedence::Unary => 8,
            Precedence::Call => 9,
            Precedence::Primary => 10,
        }
    }

    fn from_u8(r: u8) -> (p: Option<Precedence>)
        ensures
            p == Self::of_rank(r),
    {
        match r {
            0 => Some(Precedence::Lowest),
            1 => Some(Precedence::Assignment),
            2 => Some(Precedence::Or),
            3 => Some(Precedence::And),
            4 => Some(Precedence::Equality),
            5 => Some(Precedence::Comparison),
            6 => Some(Precedence::Term),
            7 => Some(Precedence::Factor),
            8 => Some(Precedence::Unary),
            9 => Some(Precedence::Call),
            10 => Some(Precedence::Primary),
            _ => None,
        }
    }

    /// The next higher precedence level; `Lowest` after `Primary`.
    pub fn next(&self) -> (p: Precedence)
        ensures
            p == self.spec_next(),
    {
        let next = self.to_u8() + 1;
        match Precedence::from_u8(next) {
            Some(p) => p,
            None => Precedence::Lowest,
        }
    }
}

/// Every level but the highest is followed by the level one rank above it;
/// the highest is followed by `Lowest`.
pub proof fn lemma_precedence_next(p: Precedence)
    ensures
        p != Precedence::Primary ==> p.spec_next().rank() == p.rank() + 1,
        p == Precedence::Primary ==> p.spec_next() == Precedence::Lowest,
{
}

/// What to compile when a token starts an expression.
#[derive(Clone, Copy, PartialEq, Eq, Structural)]
enum PrefixRule {
    Grouping,
    Unary,
    Variable,
    Str,
    Number,
    Literal,
    Super,
    This,
}

/// What to compile when a token follows an operand.
#[derive(Clone, Copy, PartialEq, Eq, Structural)]
enum InfixRule {
    Call,
    Dot,
    Binary,
    And,
    Or,
}

struct ParseRule {
    prefix: Option<PrefixRule>,
    infix: Option<InfixRule>,
    precedence: Precedence,
}

/// The prefix rule of a token kind.
spec fn prefix_of(kind: TokenKind) -> Option<PrefixRule> {
    match kind {
        TokenKind::LeftParen => Some(PrefixRule::Grouping),
        TokenKind::Minus => Some(PrefixRule::Unary),
        TokenKind::Bang => Some(PrefixRule::Unary),
        TokenKind::Identifier => Some(PrefixRule::Variable),
        TokenKind::String => Some(PrefixRule::Str),
        TokenKind::Number => Some(PrefixRule::Number),
        TokenKind::False => Some(PrefixRule::Literal),
        TokenKind::Nil => Some(PrefixRule::Literal),
        TokenKind::True => Some(PrefixRule::Literal),
        TokenKind::Super => Some(PrefixRule::Super),
        TokenKind::This => Some(PrefixRule::This),
        _ => None,
    }
}

/// The infix rule of a token kind.
spec fn infix_of(kind: TokenKind) -> Option<InfixRule> {
    match kind {
        TokenKind::LeftParen => Some(InfixRule::Call),
        TokenKind::Dot => Some(InfixRule::Dot),
        TokenKind::Minus => Some(InfixRule::Binary),
        TokenKind::Plus => Some(InfixRule::Binary),
        TokenKind::Slash => Some(InfixRule::Binary),
        TokenKind::Star => Some(InfixRule::Binary),
        TokenKind::BangEqual => Some(InfixRule::Binary),
        TokenKind::EqualEqual => Some(InfixRule::Binary),
        TokenKind::Greater => Some(InfixRule::Binary),
        TokenKind::GreaterEqual => Some(InfixRule::Binary),
        TokenKind::Less => Some(InfixRule::Binary),
        TokenKind::LessEqual => Some(InfixRule::Binary),
        TokenKind::And => Some(InfixRule::And),
        TokenKind::Or => Some(InfixRule::Or),
        _ => None,
    }
}

/// The precedence of a token kind used as an infix operator.
pub open spec fn precedence_of(kind: TokenKind) -> Precedence {
    match kind {
        TokenKind::LeftParen => Precedence::Call,
        TokenKind::Dot => Precedence::Call,
        TokenKind::Minus => Precedence::Term,
        TokenKind::Plus => Precedence::Term,
        TokenKind::Slash => Precedence::Factor,
        TokenKind::Star => Precedence::Factor,
        TokenKind::BangEqual => Precedence::Equality,
        TokenKind::EqualEqual => Precedence::Equality,
        TokenKind::Greater => Precedence::Comparison,
        TokenKind::GreaterEqual => Precedence::Comparison,
        TokenKind::Less => Precedence::Comparison,
        TokenKind::LessEqual => Precedence::Comparison,
        TokenKind::And => Precedence::And,
        TokenKind::Or => Precedence::Or,
        _ => Precedence::Lowest,
    }
}

/// Whether a token of this kind can continue an operand: it has an infix rule.
pub closed spec fn continues_operand(kind: TokenKind) -> bool {
    infix_of(kind) is Some
}

/// A token kind continues an operand exactly when its precedence is above
/// `Lowest`: compiling an operand at any precedence stops at each token that
/// cannot continue it.
pub proof fn lemma_infix_exactly_when_ranked(kind: TokenKind)
    ensures
        continues_operand(kind) <==> precedence_of(kind) != Precedence::Lowest,
{
}

fn get_rule(kind: TokenKind) -> (r: ParseRule)
    ensures
        r.prefix == prefix_of(kind),
        r.infix == infix_of(kind),
        r.precedence == precedence_of(kind),
{
    match kind {
        TokenKind::LeftParen => ParseRule {
            prefix: Some(PrefixRule::Grouping),
            infix: Some(InfixRule::Call),
            precedence: Precedence::Call,
        },
        TokenKind::Dot => ParseRule {
            prefix: None,
            infix: Some(InfixRule::Dot),
            precedence: Precedence::Call,
        },
        TokenKind::Minus => ParseRule {
            prefix: Some(PrefixRule::Unary),
            infix: Some(InfixRule::Binary),
            precedence: Precedence::Term,
        },
        TokenKind::Plus => ParseRule {
            prefix: None,
            infix: Some(InfixRule::Binary),
            precedence: Precedence::Term,
        },
        TokenKind::Slash => ParseRule {
            prefix: None,
            infix: Some(InfixRule::Binary),
            precedence: Precedence::Factor,
        },
        TokenKind::Star => ParseRule {
            prefix: None,
            infix: Some(InfixRule::Binary),
            precedence: Precedence::Factor,
        },
        TokenKind::Bang => ParseRule {
            prefix: Some(PrefixRule::Unary),
            infix: None,
            precedence: Precedence::Lowest,
        },
        TokenKind::BangEqual => ParseRule {
            prefix: None,
            infix: Some(InfixRule::Binary),
            precedence: Precedence::Equality,
        },
        TokenKind::EqualEqual => ParseRule {
            prefix: None,
            infix: Some(InfixRule::Binary),
            precedence: Precedence::Equality,
        },
        TokenKind::Greater => ParseRule {
            prefix: None,
            infix: Some(InfixRule::Binary),
            precedence: Precedence::Comparison,
        },
        TokenKind::GreaterEqual => ParseRule {
            prefix: None,
            infix: Some(InfixRule::Binary),
            precedence: Precedence::Comparison,
        },
        TokenKind::Less => ParseRule {
            prefix: None,
            infix: Some(InfixRule::Binary),
            precedence: Precedence::Comparison,
        },
        TokenKind::LessEqual => ParseRule {
            prefix: None,
            infix: Some(InfixRule::Binary),
            precedence: Precedence::Comparison,
        },
        TokenKind::Identifier => ParseRule {
            prefix: Some(PrefixRule::Variable),
            infix: None,
            precedence: Precedence::Lowest,
        },
        TokenKind::String => ParseRule {
            prefix: Some(PrefixRule::Str),
            infix: None,
            precedence: Precedence::Lowest,
        },
        TokenKind::Number => ParseRule {
            prefix: Some(PrefixRule::Number),
            infix: None,
            precedence: Precedence::Lowest,
        },
        TokenKind::And => ParseRule {
            prefix: None,
            infix: Some(InfixRule::And),
            precedence: Precedence::And,
        },
        TokenKind::False => ParseRule {
            prefix: Some(PrefixRule::Literal),
            infix: None,
            precedence: Precedence::Lowest,
        },
        TokenKind::Nil => ParseRule {
            prefix: Some(PrefixRule::Literal),
            infix: None,
            precedence: Precedence::Lowest,
        },
        TokenKind::Or => ParseRule {
            prefix: None,
            infix: Some(InfixRule::Or),
            precedence: Precedence::Or,
        },
        TokenKind::Super => ParseRule {
            prefix: Some(PrefixRule::Super),
            infix: None,
            precedence: Precedence::Lowest,
        },
        TokenKind::This => ParseRule {
            prefix: Some(PrefixRule::This),
            infix: None,
            precedence: Precedence::Lowest,
        },
        TokenKind::True => ParseRule {
            prefix: Some(PrefixRule::Literal),
            infix: None,
            precedence: Precedence::Lowest,
        },
        _ => ParseRule { prefix: None, infix: None, precedence: Precedence::Lowest },
    }
}

// ---------------------------------------------------------------------------
// Compilation units
// ---------------------------------------------------------------------------

/// A local variable: its name, the scope depth at which it was defined (-1
/// while its initializer is compiled) and whether a closure captures it.
struct Local {
    name: Token,
    depth: i128,
    is_captured: bool,
}

#[derive(Clone, Copy, PartialEq, Eq, Structural)]
enum FunctionType {
    Function,
    Initializer,
    Method,
    Script,
}

/// A variable that a function captures: a local slot of the enclosing function,
/// or one of the enclosing function's own captured variables.
#[derive(Clone, Copy)]
struct Upvalue {
    index: u8,
    is_local: bool,
}

struct CompUnitError {
    message: String,
}

impl CompUnitError {
    fn new(message: String) -> (e: CompUnitError)
        ensures
            e.message == message,
    {
        CompUnitError { message }
    }
}

/// The state of the function being compiled, and of the functions around it.
struct CompilationUnit {
    enclosing: Option<Box<CompilationUnit>>,
    locals: Vec<Local>,
    upvalues: Vec<Upvalue>,
    scope_depth: i128,
    function_type: FunctionType,
    function: Function,
    /// Where the jumps of the code whose distance is still to be filled in start.
    pending_jumps: Ghost<Set<int>>,
}

/// How many functions enclose the unit.
spec fn unit_depth(u: CompilationUnit) -> nat
    decreases u,
{
    match u.enclosing {
        Some(e) => 1 + unit_depth(*e),
        None => 0,
    }
}

/// What compiling a function inside a unit must leave as it was in that unit:
/// its scope depth, its code and constants, and the function's parameters, name and kind.
struct UnitShape {
    scope_depth: i128,
    chunk: Chunk,
    pending_jumps: Set<int>,
    arity: usize,
    name: String,
    function_type: FunctionType,
}

spec fn shape_of(u: CompilationUnit) -> UnitShape {
    UnitShape {
        scope_depth: u.scope_depth,
        chunk: u.function.chunk,
        pending_jumps: u.pending_jumps@,
        arity: u.function.arity,
        name: u.function.name,
        function_type: u.function_type,
    }
}

/// The shapes of a chain of enclosing units, innermost first.
spec fn encl_shapes(e: Option<Box<CompilationUnit>>) -> Seq<UnitShape>
    decreases e,
{
    match e {
        Some(u) => seq![shape_of(*u)] + encl_shapes(u.enclosing),
        None => Seq::empty(),
    }
}

/// Code as it is while being compiled: a sequence of well-formed instructions
/// whose jumps land where instructions start, but for the jumps still to be filled
/// in; that names only the first `n` captured variables of the function; and
/// whose constants are at most 256, the functions among them well formed.
spec fn code_ok(c: Chunk, pending: Set<int>, n: int) -> bool {
    &&& c.constants@.len() <= 256
    &&& c.decodes()
    &&& jumps_land_except(c.code@, c.constants@, pending)
    &&& captures_within(c.code@, c.constants@, n)
    &&& forall|p: int| pending.contains(p) ==> 0 <= p < c.code@.len()
    &&& forall|k: int| 0 <= k < c.constants@.len() ==> constant_ok(#[trigger] c.constants@[k])
}

/// The code of every unit around is as it should be while being compiled.
spec fn encl_ok(e: Option<Box<CompilationUnit>>) -> bool
    decreases e,
{
    match e {
        Some(u) => {
            &&& code_ok(u.function.chunk, u.pending_jumps@, u.upvalues@.len() as int)
            &&& u.function.arity <= 255
            &&& encl_ok(u.enclosing)
        },
        None => true,
    }
}

/// The captured variables that come from the function around name only its first `n`.
spec fn captured_from(ups: Seq<Upvalue>, n: int) -> bool {
    forall|i: int| 0 <= i < ups.len() ==> (!(#[trigger] ups[i]).is_local ==> ups[i].index < n)
}

/// A well-formed unit, and all units around it: at most 255 locals (and at least the
/// reserved slot 0), at most 255 captured variables, a line for every byte of code,
/// and scope depth within `bound`.
spec fn unit_wf(u: CompilationUnit, bound: int) -> bool
    decreases u,
{
    &&& u.locals@.len() <= 255
    &&& u.upvalues@.len() == u.function.upvalue_count
    &&& u.upvalues@.len() <= 255
    &&& u.function.chunk.wf()
    &&& -bound <= u.scope_depth <= bound
    &&& (u.enclosing is None ==> u.upvalues@.len() == 0)
    &&& match u.enclosing {
        Some(e) => captured_from(u.upvalues@, e.upvalues@.len() as int) && unit_wf(*e, bound),
        None => true,
    }
}

proof fn lemma_unit_wf_mono(u: CompilationUnit, b1: int, b2: int)
    requires
        unit_wf(u, b1),
        b1 <= b2,
    ensures
        unit_wf(u, b2),
    decreases u,
{
    if let Some(e) = u.enclosing {
        lemma_unit_wf_mono(*e, b1, b2);
    }
}

/// The innermost local among `locals[..k]` named `name`.
spec fn find_local(locals: Seq<Local>, name: Seq<char>, k: int) -> Option<int>
    decreases k,
{
    if k <= 0 {
        None
    } else if locals[k - 1].name.lexeme@ == name {
        Some(k - 1)
    } else {
        find_local(locals, name, k - 1)
    }
}

/// The first captured variable from `i` on that is (`index`, `is_local`).
spec fn find_upvalue(ups: Seq<Upvalue>, index: u8, is_local: bool, i: int) -> Option<int>
    decreases ups.len() - i,
{
    if i < 0 || i >= ups.len() {
        None
    } else if ups[i].index == index && ups[i].is_local == is_local {
        Some(i)
    } else {
        find_upvalue(ups, index, is_local, i + 1)
    }
}

/// Where (`index`, `is_local`) stands in a list of captured variables once it is
/// added: where it already was, or at the end; `None` when the list is full.
spec fn upvalue_slot(ups: Seq<Upvalue>, index: u8, is_local: bool) -> Option<int> {
    match find_upvalue(ups, index, is_local, 0) {
        Some(i) => Some(i),
        None => if ups.len() >= 255 {
            None
        } else {
            Some(ups.len() as int)
        },
    }
}

/// Whether a function around the unit has a local named `name`.
spec fn in_enclosing(u: CompilationUnit, name: Seq<char>) -> bool
    decreases u,
{
    match u.enclosing {
        Some(e) => find_local(e.locals@, name, e.locals@.len() as int) is Some || in_enclosing(*e, name),
        None => false,
    }
}

/// The byte that names the next constant of `consts`: its index, or 0 when that
/// does not fit in a byte.
spec fn next_constant_byte(consts: Seq<Constant>) -> u8 {
    if consts.len() <= 255 {
        consts.len() as u8
    } else {
        0u8
    }
}

/// The instruction a literal keyword compiles to.
pub open spec fn literal_op(kind: TokenKind) -> OpCode {
    if kind == TokenKind::False {
        OpCode::False
    } else if kind == TokenKind::Nil {
        OpCode::Nil
    } else {
        OpCode::True
    }
}

/// Whether a binary operator compiles to two instructions: its opposite, then `Not`.
pub open spec fn binary_negated(kind: TokenKind) -> bool {
    kind == TokenKind::BangEqual || kind == TokenKind::GreaterEqual || kind == TokenKind::LessEqual
}

/// The first of the two instructions of a negated binary operator.
pub open spec fn binary_opposite(kind: TokenKind) -> OpCode {
    if kind == TokenKind::BangEqual {
        OpCode::Equal
    } else if kind == TokenKind::GreaterEqual {
        OpCode::Less
    } else {
        OpCode::Greater
    }
}

/// The last instruction a binary operator compiles to.
pub open spec fn binary_last(kind: TokenKind) -> OpCode {
    if binary_negated(kind) {
        OpCode::Not
    } else if kind == TokenKind::EqualEqual {
        OpCode::Equal
    } else if kind == TokenKind::Greater {
        OpCode::Greater
    } else if kind == TokenKind::Less {
        OpCode::Less
    } else if kind == TokenKind::Plus {
        OpCode::Add
    } else if kind == TokenKind::Minus {
        OpCode::Subtract
    } else if kind == TokenKind::Star {
        OpCode::Multiply
    } else {
        OpCode::Divide
    }
}

/// Whether a token kind is a binary operator.
pub open spec fn is_binary_op(kind: TokenKind) -> bool {
    kind == TokenKind::Minus || kind == TokenKind::Plus || kind == TokenKind::Slash || kind
        == TokenKind::Star || kind == TokenKind::BangEqual || kind == TokenKind::EqualEqual || kind
        == TokenKind::Greater || kind == TokenKind::GreaterEqual || kind == TokenKind::Less || kind
        == TokenKind::LessEqual
}

/// The instructions a binary operator compiles to, after its two operands.
pub open spec fn binary_code(kind: TokenKind) -> Seq<u8> {
    if binary_negated(kind) {
        seq![binary_opposite(kind).spec_u8(), OpCode::Not.spec_u8()]
    } else {
        seq![binary_last(kind).spec_u8()]
    }
}

/// The code of `and` or `or` with right operand code `right`, after the left
/// operand: `and` jumps over the right operand when the left one is falsey,
/// keeping it as the result, and otherwise pops it; `or` jumps to the pop of the
/// left operand and the right operand when the left one is falsey, and otherwise
/// jumps over both, keeping the left operand.
pub open spec fn logic_code(kind: TokenKind, right: Seq<u8>) -> Seq<u8> {
    let d = right.len() + 1;
    let hi = (d / 256) as u8;
    let lo = (d % 256) as u8;
    if kind == TokenKind::And {
        seq![OpCode::JumpIfFalse.spec_u8(), hi, lo, OpCode::Pop.spec_u8()] + right
    } else {
        seq![
            OpCode::JumpIfFalse.spec_u8(),
            0u8,
            3u8,
            OpCode::Jump.spec_u8(),
            hi,
            lo,
            OpCode::Pop.spec_u8(),
        ] + right
    }
}

/// Where a compiler stands in the source: its current token, of kind `kind` and
/// with text `text`, and where the scanner stands after that token.
pub struct Cursor {
    pub kind: TokenKind,
    pub text: Seq<char>,
    pub pos: int,
    pub line: int,
}

/// The cursor one token on.
pub open spec fn next_cursor(s: Seq<char>, c: Cursor) -> Cursor {
    let st = spec_scan(s, c.pos, c.line);
    Cursor { kind: st.kind, text: st.lexeme, pos: st.pos, line: st.line }
}

/// How much of the source is left after a cursor: two per character, and one
/// for a current token that is not `Eof`.
pub open spec fn cursor_measure(s: Seq<char>, c: Cursor) -> int {
    if 0 <= c.pos <= s.len() {
        2 * (s.len() - c.pos) + if c.kind == TokenKind::Eof {
            0int
        } else {
            1int
        }
    } else {
        0
    }
}

/// The cursor one token on, where that token is no error and the cursor moves.
pub open spec fn moves_on(s: Seq<char>, c: Cursor) -> bool {
    &&& next_cursor(s, c).kind != TokenKind::Error
    &&& cursor_measure(s, next_cursor(s, c)) < cursor_measure(s, c)
}

/// What compiling a part of the source gives: its code, the texts of the numbers
/// it adds to the constants, in order, and where the compiler stands after it.
pub struct Compiled {
    pub code: Seq<u8>,
    pub numbers: Seq<Seq<char>>,
    pub rest: Cursor,
}

/// The code of an expression made of numbers, `true`, `false`, `nil`, the unary
/// operators `-` and `!`, parentheses, the binary operators, `and` and `or`, that starts at the
/// current token of `c` and whose operators bind at least as tightly as the
/// precedence of rank `prec`; `nk` constants are there before it. `None` for any
/// other expression, or one the compiler reports an error on (a lexical error, a
/// missing `)`, an `=` after it where an assignment could stand, more than 256
/// constants).
pub open spec fn spec_expression(s: Seq<char>, c: Cursor, prec: int, nk: nat) -> Option<Compiled>
    decreases cursor_measure(s, c), 2int,
{
    let after = next_cursor(s, c);
    if c.kind == TokenKind::Eof || !moves_on(s, c) {
        None
    } else {
        match spec_operand(s, c.kind, c.text, after, nk) {
            Some(p) => if cursor_measure(s, p.rest) < cursor_measure(s, c) {
                match spec_operators(s, p, prec, nk) {
                    Some(r) => if prec <= Precedence::Assignment.rank() && r.rest.kind == TokenKind::Equal {
                        None
                    } else {
                        Some(r)
                    },
                    None => None,
                }
            } else {
                None
            },
            None => None,
        }
    }
}

/// The code of the operand that starts with the token of kind `kind` and text
/// `text`, the compiler standing at `after`; see `spec_expression`.
pub open spec fn spec_operand(s: Seq<char>, kind: TokenKind, text: Seq<char>, after: Cursor, nk: nat) -> Option<Compiled>
    decreases cursor_measure(s, after), 3int,
{
    if kind == TokenKind::Number {
        if nk <= 255 {
            Some(Compiled { code: seq![OpCode::Constant.spec_u8(), nk as u8], numbers: seq![text], rest: after })
        } else {
            None
        }
    } else if kind == TokenKind::True || kind == TokenKind::False || kind == TokenKind::Nil {
        Some(Compiled { code: seq![literal_op(kind).spec_u8()], numbers: Seq::empty(), rest: after })
    } else if kind == TokenKind::Minus || kind == TokenKind::Bang {
        match spec_expression(s, after, Precedence::Unary.rank() as int, nk) {
            Some(r) => Some(Compiled {
                code: r.code.push(if kind == TokenKind::Minus {
                    OpCode::Negate
                } else {
                    OpCode::Not
                }.spec_u8()),
                numbers: r.numbers,
                rest: r.rest,
            }),
            None => None,
        }
    } else if kind == TokenKind::LeftParen {
        match spec_expression(s, after, Precedence::Assignment.rank() as int, nk) {
            Some(r) => if r.rest.kind == TokenKind::RightParen && moves_on(s, r.rest) {
                Some(Compiled { code: r.code, numbers: r.numbers, rest: next_cursor(s, r.rest) })
            } else {
                None
            },
            None => None,
        }
    } else {
        None
    }
}

/// The code of the binary operators, `and` and `or`, and their right operands,
/// that follow the operand compiled into `acc`, while they bind at least as
/// tightly as the precedence of rank `prec`: the right operand of a binary
/// operator binds more tightly than it, so those operators group to the left; the
/// right operand of `and` or `or` takes further operators of its own precedence.
pub open spec fn spec_operators(s: Seq<char>, acc: Compiled, prec: int, nk: nat) -> Option<Compiled>
    decreases cursor_measure(s, acc.rest), 1int,
{
    let t = acc.rest;
    if prec <= precedence_of(t.kind).rank() {
        if !moves_on(s, t) {
            None
        } else if t.kind == TokenKind::And || t.kind == TokenKind::Or {
            match spec_expression(s, next_cursor(s, t), precedence_of(t.kind).rank() as int, nk + acc.numbers.len()) {
                Some(r) => if cursor_measure(s, r.rest) < cursor_measure(s, t) && r.code.len() + 1 <= 65535 {
                    spec_operators(
                        s,
                        Compiled {
                            code: acc.code + logic_code(t.kind, r.code),
                            numbers: acc.numbers + r.numbers,
                            rest: r.rest,
                        },
                        prec,
                        nk,
                    )
                } else {
                    None
                },
                None => None,
            }
        } else if !is_binary_op(t.kind) {
            None
        } else {
            match spec_expression(
                s,
                next_cursor(s, t),
                precedence_of(t.kind).spec_next().rank() as int,
                nk + acc.numbers.len(),
            ) {
                Some(r) => if cursor_measure(s, r.rest) < cursor_measure(s, t) {
                    spec_operators(
                        s,
                        Compiled {
                            code: acc.code + r.code + binary_code(t.kind),
                            numbers: acc.numbers + r.numbers,
                            rest: r.rest,
                        },
                        prec,
                        nk,
                    )
                } else {
                    None
                },
                None => None,
            }
        }
    } else {
        Some(acc)
    }
}

/// The statement that ends with the code of `e`, an instruction `op`, and the `;`
/// that must come next.
pub open spec fn ended_by(s: Seq<char>, e: Compiled, op: OpCode) -> Option<Compiled> {
    if e.rest.kind == TokenKind::Semicolon && moves_on(s, e.rest) {
        Some(Compiled { code: e.code.push(op.spec_u8()), numbers: e.numbers, rest: next_cursor(s, e.rest) })
    } else {
        None
    }
}

/// Whether a token kind starts a statement or declaration other than an
/// expression statement.
pub open spec fn starts_keyword_statement(kind: TokenKind) -> bool {
    kind == TokenKind::Class || kind == TokenKind::Fun || kind == TokenKind::Var || kind == TokenKind::Print
        || kind == TokenKind::If || kind == TokenKind::For || kind == TokenKind::Return || kind
        == TokenKind::While || kind == TokenKind::LeftBrace
}

/// The code of a `print` statement or an expression statement, of an expression
/// as `spec_expression` covers, that starts at the current token of `c`: the
/// expression, then `Print` or `Pop`.
pub open spec fn spec_statement(s: Seq<char>, c: Cursor, nk: nat) -> Option<Compiled> {
    if c.kind == TokenKind::Print {
        if moves_on(s, c) {
            match spec_expression(s, next_cursor(s, c), Precedence::Assignment.rank() as int, nk) {
                Some(e) => ended_by(s, e, OpCode::Print),
                None => None,
            }
        } else {
            None
        }
    } else if starts_keyword_statement(c.kind) {
        None
    } else {
        match spec_expression(s, c, Precedence::Assignment.rank() as int, nk) {
            Some(e) => ended_by(s, e, OpCode::Pop),
            None => None,
        }
    }
}

/// The code of the statements, as `spec_statement` covers, from the current token
/// of `c` to the end of the source.
pub open spec fn spec_statements(s: Seq<char>, c: Cursor, nk: nat) -> Option<Compiled>
    decreases cursor_measure(s, c),
{
    if c.kind == TokenKind::Eof {
        Some(Compiled { code: Seq::empty(), numbers: Seq::empty(), rest: c })
    } else {
        match spec_statement(s, c, nk) {
            Some(st) => if cursor_measure(s, st.rest) < cursor_measure(s, c) {
                match spec_statements(s, st.rest, nk + st.numbers.len()) {
                    Some(r) => Some(
                        Compiled { code: st.code + r.code, numbers: st.numbers + r.numbers, rest: r.rest },
                    ),
                    None => None,
                }
            } else {
                None
            },
            None => None,
        }
    }
}

/// The code of the arguments of a call, from the token after its `(` up to and
/// past its `)`, where each argument is an expression `spec_expression` covers:
/// the arguments' code in order, and how many arguments there are in all, `count`
/// of them before `c`. `None` for any other argument list, or one with more than
/// 255 arguments.
pub open spec fn spec_arguments(s: Seq<char>, c: Cursor, nk: nat, count: nat) -> Option<(Compiled, nat)>
    decreases cursor_measure(s, c),
{
    if count == 0 && c.kind == TokenKind::RightParen {
        if moves_on(s, c) {
            Some((Compiled { code: Seq::empty(), numbers: Seq::empty(), rest: next_cursor(s, c) }, 0))
        } else {
            None
        }
    } else {
        match spec_expression(s, c, Precedence::Assignment.rank() as int, nk) {
            Some(e) => if count >= 255 || !moves_on(s, e.rest) || cursor_measure(s, e.rest)
                >= cursor_measure(s, c) {
                None
            } else if e.rest.kind == TokenKind::Comma {
                join_args(e, spec_arguments(s, next_cursor(s, e.rest), nk + e.numbers.len(), count + 1))
            } else if e.rest.kind == TokenKind::RightParen {
                Some((Compiled { code: e.code, numbers: e.numbers, rest: next_cursor(s, e.rest) }, count + 1))
            } else {
                None
            },
            None => None,
        }
    }
}

/// `acc` followed by the arguments compiled after it, if they compiled.
pub open spec fn join_args(acc: Compiled, rest: Option<(Compiled, nat)>) -> Option<(Compiled, nat)> {
    match rest {
        Some((r, n)) => Some(
            (Compiled { code: acc.code + r.code, numbers: acc.numbers + r.numbers, rest: r.rest }, n),
        ),
        None => None,
    }
}

/// `acc` followed by what `rest` compiled, if it compiled.
pub open spec fn joined(acc: Compiled, rest: Option<Compiled>) -> Option<Compiled> {
    match rest {
        Some(r) => Some(Compiled { code: acc.code + r.code, numbers: acc.numbers + r.numbers, rest: r.rest }),
        None => None,
    }
}

/// Where a compiler stands before it has read anything.
pub open spec fn start_cursor() -> Cursor {
    Cursor { kind: TokenKind::Eof, text: Seq::empty(), pos: 0, line: 1 }
}

/// The code of a whole source made only of `print` statements and expression
/// statements over numbers, `true`, `false`, `nil`, unary and binary operators,
/// `and`, `or` and parentheses, with at most 256 numbers: each statement's code in turn, the
/// operands of each operator before it, each operator grouping to the left with
/// the operators of its precedence. `None` for any other source.
pub open spec fn spec_script(s: Seq<char>) -> Option<Compiled> {
    if next_cursor(s, start_cursor()).kind == TokenKind::Error {
        None
    } else {
        spec_statements(s, next_cursor(s, start_cursor()), 0)
    }
}

/// Whether a constant is the number with source text `text`.
pub open spec fn is_number(c: Constant, text: Seq<char>) -> bool {
    match c {
        Constant::Number(n) => n@ == text,
        _ => false,
    }
}

/// Instructions that read a variable.
spec fn is_get_op(b: u8) -> bool {
    b == OpCode::GetLocal.spec_u8() || b == OpCode::GetUpvalue.spec_u8() || b == OpCode::GetGlobal.spec_u8()
}

/// Instructions that assign a variable.
spec fn is_set_op(b: u8) -> bool {
    b == OpCode::SetLocal.spec_u8() || b == OpCode::SetUpvalue.spec_u8() || b == OpCode::SetGlobal.spec_u8()
}

/// Whether the innermost class being compiled has a superclass.
spec fn has_super(cc: Option<Box<ClassCompiler>>) -> bool {
    cc matches Some(c) && c.has_superclass
}

/// Tokens where a statement starts, at which error recovery stops.
spec fn starts_statement(kind: TokenKind) -> bool {
    kind == TokenKind::Class || kind == TokenKind::Fun || kind == TokenKind::Var || kind == TokenKind::For
        || kind == TokenKind::If || kind == TokenKind::While || kind == TokenKind::Print || kind
        == TokenKind::Return
}

/// The instructions that drop the locals from index `k` on, the newest first:
/// `CloseUpvalue` for a local that a closure captured, `Pop` for any other.
spec fn drop_code(locals: Seq<Local>, k: int) -> Seq<u8> {
    Seq::new(
        (locals.len() - k) as nat,
        |i: int|
            if locals[locals.len() - 1 - i].is_captured {
                OpCode::CloseUpvalue.spec_u8()
            } else {
                OpCode::Pop.spec_u8()
            },
    )
}

/// `locals` with the newest one initialized at scope depth `depth`.
spec fn initialized_last(locals: Seq<Local>, depth: i128) -> Seq<Local> {
    if locals.len() == 0 {
        locals
    } else {
        locals.update(
            locals.len() - 1,
            Local { name: locals.last().name, depth, is_captured: locals.last().is_captured },
        )
    }
}

/// Whether a local named `name` among `locals[..k]` is declared in the scope at
/// depth `depth`: looking back from the newest, before the first local of an
/// outer scope.
spec fn scope_has(locals: Seq<Local>, depth: int, name: Seq<char>, k: int) -> bool
    decreases k,
{
    if k <= 0 {
        false
    } else if 0 <= locals[k - 1].depth < depth {
        false
    } else if locals[k - 1].name.lexeme@ == name {
        true
    } else {
        scope_has(locals, depth, name, k - 1)
    }
}

impl CompilationUnit {
    fn new(
        function_type: FunctionType,
        name: Option<String>,
        enclosing: Option<Box<CompilationUnit>>,
    ) -> (u: CompilationUnit)
        ensures
            u.enclosing == enclosing,
            u.locals@.len() == 1,
            u.locals@[0].name.kind == TokenKind::Identifier,
            u.locals@[0].name.lexeme@ == (if function_type == FunctionType::Function {
                Seq::<char>::empty()
            } else {
                seq!['t', 'h', 'i', 's']
            }),
            u.locals@[0].name.line == 0,
            u.locals@[0].depth == 0,
            !u.locals@[0].is_captured,
            u.upvalues@.len() == 0,
            u.scope_depth == 0,
            u.function_type == function_type,
            u.function.arity == 0,
            u.function.upvalue_count == 0,
            u.function.chunk.code@.len() == 0,
            u.function.chunk.lines@.len() == 0,
            u.function.chunk.constants@.len() == 0,
            u.pending_jumps@ == Set::<int>::empty(),
            u.function.name@ == (match name {
                Some(n) => n@,
                None => Seq::<char>::empty(),
            }),
    {
        let mut locals = Vec::<Local>::with_capacity(256);
        proof {
            reveal_strlit("this");
            reveal_strlit("");
            assert("this"@ =~= seq!['t', 'h', 'i', 's']);
            assert(""@ =~= Seq::<char>::empty());
        }
        let lexeme = if function_type != FunctionType::Function {
            "this".to_owned()
        } else {
            "".to_owned()
        };
        locals.push(
            Local {
                name: Token { kind: TokenKind::Identifier, lexeme, line: 0 },
                depth: 0,
                is_captured: false,
            },
        );
        let function = Function::new(name);
        CompilationUnit {
            enclosing,
            locals,
            upvalues: Vec::new(),
            scope_depth: 0,
            function_type,
            function,
            pending_jumps: Ghost(Set::empty()),
        }
    }

    /// The slot of the innermost local named `name`, if any; an error if that
    /// local is still being initialized.
    fn resolve_local(&self, name: &String) -> (r: Result<Option<u8>, CompUnitError>)
        requires
            self.locals@.len() <= 255,
        ensures
            r matches Ok(Some(i)) ==> i < self.locals@.len() && self.locals@[i as int].name.lexeme@
                == name@ && self.locals@[i as int].depth != -1,
            find_local(self.locals@, name@, self.locals@.len() as int) is None ==> r matches Ok(None),
            find_local(self.locals@, name@, self.locals@.len() as int) matches Some(i) ==> {
                &&& self.locals@[i].depth == -1 ==> (r matches Err(e) && e.message@
                    == "Can't read local variable in its own initializer."@)
                &&& self.locals@[i].depth != -1 ==> (r matches Ok(Some(j)) && j == i)
            },
    {
        let mut i = self.locals.len();
        while i > 0
            invariant
                0 <= i <= self.locals@.len() <= 255,
                find_local(self.locals@, name@, self.locals@.len() as int) == find_local(
                    self.locals@,
                    name@,
                    i as int,
                ),
            decreases i,
        {
            i = i - 1;
            if self.locals[i].name.lexeme == *name {
                if self.locals[i].depth == -1 {
                    return Err(
                        CompUnitError::new(
                            "Can't read local variable in its own initializer.".to_owned(),
                        ),
                    );
                }
                return Ok(Some(i as u8));
            }
        }
        Ok(None)
    }

    /// The index of the captured variable `name` in this unit's list, adding it
    /// (and capturing it in the units around) where needed; `None` if no enclosing
    /// function has a variable of that name.
    fn resolve_upvalue(&mut self, name: &String, Ghost(bound): Ghost<int>) -> (r: Result<
        Option<u8>,
        CompUnitError,
    >)
        requires
            unit_wf(*old(self), bound),
        ensures
            unit_wf(*final(self), bound),
            unit_depth(*final(self)) == unit_depth(*old(self)),
            encl_shapes(final(self).enclosing) == encl_shapes(old(self).enclosing),
            final(self).scope_depth == old(self).scope_depth,
            final(self).locals@.len() == old(self).locals@.len(),
            final(self).function.chunk == old(self).function.chunk,
            final(self).function.arity == old(self).function.arity,
            final(self).function.name == old(self).function.name,
            final(self).function_type == old(self).function_type,
            final(self).pending_jumps == old(self).pending_jumps,
            old(self).upvalues@.len() <= final(self).upvalues@.len(),
            forall|i: int| 0 <= i < old(self).upvalues@.len() ==> final(self).upvalues@[i] == old(self).upvalues@[i],
            r matches Ok(Some(i)) ==> i < final(self).upvalues@.len(),
            encl_ok(old(self).enclosing) ==> encl_ok(final(self).enclosing),
            final(self).locals == old(self).locals,
            !in_enclosing(*old(self), name@) ==> r matches Ok(None),
            in_enclosing(*old(self), name@) ==> !(r matches Ok(None)),
            old(self).enclosing matches Some(e) ==> (find_local(e.locals@, name@, e.locals@.len() as int)
                matches Some(i) ==> {
                &&& e.locals@[i].depth == -1 ==> r is Err
                &&& e.locals@[i].depth != -1 ==> match upvalue_slot(old(self).upvalues@, i as u8, true) {
                    Some(j) => (r matches Ok(Some(k)) && k == j),
                    None => r is Err,
                }
            }),
        decreases unit_depth(*old(self)),
    {
        if self.enclosing.is_none() {
            return Ok(None);
        }
        let ghost old_self = *self;
        let mut enc = self.enclosing.take().unwrap();
        assert(old_self.enclosing == Some(enc));
        assert(unit_wf(*enc, bound));
        let local = match enc.resolve_local(name) {
            Ok(l) => l,
            Err(e) => {
                self.enclosing = Some(enc);
                return Err(e);
            },
        };
        if let Some(local) = local {
            let ghost enc0 = *enc;
            enc.locals.set(local as usize, Local {
                name: enc.locals[local as usize].name.clone(),
                depth: enc.locals[local as usize].depth,
                is_captured: true,
            });
            assert(unit_depth(*enc) == unit_depth(enc0));
            assert(unit_wf(*enc, bound));
            assert(shape_of(*enc) == shape_of(enc0));
            self.enclosing = Some(enc);
            assert(unit_depth(*self) == unit_depth(old_self));
            assert(encl_shapes(self.enclosing) =~= encl_shapes(old_self.enclosing));
            let idx = self.add_upvalue(local, true);
            return match idx {
                Ok(i) => Ok(Some(i)),
                Err(e) => Err(e),
            };
        }
        let ghost enc0 = *enc;
        let upvalue = enc.resolve_upvalue(name, Ghost(bound));
        assert(shape_of(*enc) == shape_of(enc0));
        self.enclosing = Some(enc);
        assert(encl_shapes(self.enclosing) =~= encl_shapes(old_self.enclosing));
        match upvalue {
            Err(e) => Err(e),
            Ok(Some(upvalue)) => match self.add_upvalue(upvalue, false) {
                Ok(i) => Ok(Some(i)),
                Err(e) => Err(e),
            },
            Ok(None) => Ok(None),
        }
    }

    /// The index of the captured variable (`index`, `is_local`) in this unit's list,
    /// added if it is not there yet; an error when the list is full.
    fn add_upvalue(&mut self, index: u8, is_local: bool) -> (r: Result<u8, CompUnitError>)
        requires
            old(self).upvalues@.len() == old(self).function.upvalue_count,
            old(self).upvalues@.len() <= 255,
        ensures
            final(self).enclosing == old(self).enclosing,
            final(self).locals == old(self).locals,
            final(self).scope_depth == old(self).scope_depth,
            final(self).function_type == old(self).function_type,
            final(self).function.chunk == old(self).function.chunk,
            final(self).function.arity == old(self).function.arity,
            final(self).function.name == old(self).function.name,
            final(self).pending_jumps == old(self).pending_jumps,
            final(self).upvalues@ == old(self).upvalues@ || final(self).upvalues@ == old(self).upvalues@.push(
                Upvalue { index, is_local },
            ),
            upvalue_slot(old(self).upvalues@, index, is_local) matches Some(i) ==> (r matches Ok(j) && j
                == i && final(self).upvalues@ == (if i < old(self).upvalues@.len() {
                old(self).upvalues@
            } else {
                old(self).upvalues@.push(Upvalue { index, is_local })
            })),
            upvalue_slot(old(self).upvalues@, index, is_local) is None ==> r is Err && final(self).upvalues@
                == old(self).upvalues@,
            r matches Err(e) ==> e.message@ == "Too many closure variables in function."@,
            final(self).upvalues@.len() == final(self).function.upvalue_count,
            final(self).upvalues@.len() <= 255,
            r matches Ok(i) ==> i < final(self).upvalues@.len() && final(self).upvalues@[i as int].index
                == index && final(self).upvalues@[i as int].is_local == is_local,
    {
        let mut i: usize = 0;
        while i < self.upvalues.len()
            invariant
                0 <= i <= self.upvalues@.len() <= 255,
                self.upvalues@.len() == self.function.upvalue_count,
                *self == *old(self),
                find_upvalue(self.upvalues@, index, is_local, 0) == find_upvalue(
                    self.upvalues@,
                    index,
                    is_local,
                    i as int,
                ),
            decreases self.upvalues@.len() - i,
        {
            let upvalue = self.upvalues[i];
            if upvalue.index == index && upvalue.is_local == is_local {
                return Ok(i as u8);
            }
            i = i + 1;
        }
        if self.upvalues.len() == 255 {
            return Err(CompUnitError::new("Too many closure variables in function.".to_owned()));
        }
        self.function.upvalue_count = self.function.upvalue_count + 1;
        self.upvalues.push(Upvalue { index, is_local });
        Ok((self.upvalues.len() - 1) as u8)
    }
}


// ---------------------------------------------------------------------------
// The compiler
// ---------------------------------------------------------------------------

/// A token that the source does not hold: an identifier with the given text.
fn synthetic_token(lexeme: &str) -> (t: Token)
    ensures
        t.kind == TokenKind::Identifier,
        t.lexeme@ == lexeme@,
        t.line == 0,
{
    Token { kind: TokenKind::Identifier, lexeme: lexeme.to_owned(), line: 0 }
}

/// Where in the source a compile error was found.
#[derive(Debug, PartialEq)]
pub enum ErrorLocation {
    /// At the end of the source.
    AtEnd,
    /// At the token with this text.
    AtLexeme(String),
    /// At a token that the scanner could not read.
    AtScanError,
}

/// A compile error: the line, where on it, and the message.
#[derive(Debug, PartialEq)]
pub struct Diagnostic {
    pub line: usize,
    pub location: ErrorLocation,
    pub message: String,
}

/// Why compiling failed.
#[derive(Debug, PartialEq)]
pub enum CompileError {
    /// The compiler had been used already.
    AlreadyRan,
    /// The source has errors; these are the diagnostics, in the order they were made.
    HadErrors(Vec<Diagnostic>),
}

/// The character of the decimal digit `d`, below 10.
pub open spec fn digit_char(d: int) -> char {
    (48 + d) as char
}

/// The decimal numeral of `n`, without leading zeros.
pub open spec fn decimal(n: nat) -> Seq<char>
    decreases n,
{
    if n < 10 {
        seq![digit_char(n as int)]
    } else {
        decimal(n / 10).push(digit_char((n % 10) as int))
    }
}

/// The decimal numeral of `n`.
pub(crate) fn decimal_text(n: usize) -> (s: String)
    ensures
        s@ == decimal(n as nat),
    decreases n,
{
    let digit = ((n % 10) as u8 + 48) as char;
    if n < 10 {
        let mut s = String::new();
        push_char(&mut s, digit);
        s
    } else {
        let mut s = decimal_text(n / 10);
        push_char(&mut s, digit);
        s
    }
}

/// How a diagnostic names where the error is.
pub open spec fn location_text(location: ErrorLocation) -> Seq<char> {
    match location {
        ErrorLocation::AtEnd => " at end"@,
        ErrorLocation::AtLexeme(lexeme) => " at '"@ + lexeme@ + "'"@,
        ErrorLocation::AtScanError => Seq::empty(),
    }
}

impl Diagnostic {
    /// The diagnostic as it is reported: `[line N] Error`, where the error is
    /// (` at end`, ` at 'text'`, or nothing for a token the scanner could not
    /// read), then `: ` and the message.
    pub fn render(&self) -> (s: String)
        ensures
            s@ == "[line "@ + decimal(self.line as nat) + "] Error"@ + location_text(self.location)
                + ": "@ + self.message@,
    {
        let mut s = "[line ".to_owned();
        s = s.concat(decimal_text(self.line).as_str());
        s = s.concat("] Error");
        match &self.location {
            ErrorLocation::AtEnd => {
                s = s.concat(" at end");
            },
            ErrorLocation::AtLexeme(lexeme) => {
                s = s.concat(" at '");
                s = s.concat(lexeme.as_str());
                s = s.concat("'");
            },
            ErrorLocation::AtScanError => {},
        }
        s = s.concat(": ");
        s.concat(self.message.as_str())
    }
}

impl CompileError {
    /// What a failed compile says.
    pub fn describe(&self) -> (s: String)
        ensures
            s@ == (match self {
                CompileError::AlreadyRan => "Compiler can only be used once"@,
                CompileError::HadErrors(_) => "Had compilation errors"@,
            }),
    {
        match self {
            CompileError::AlreadyRan => "Compiler can only be used once".to_owned(),
            CompileError::HadErrors(_) => "Had compilation errors".to_owned(),
        }
    }
}

struct ClassCompiler {
    enclosing: Option<Box<ClassCompiler>>,
    has_superclass: bool,
}

/// How many classes are being compiled, one inside the other.
spec fn cc_depth(cc: Option<Box<ClassCompiler>>) -> nat
    decreases cc,
{
    match cc {
        Some(c) => 1 + cc_depth(c.enclosing),
        None => 0,
    }
}

/// A single-pass compiler from Lox source to bytecode.
pub struct Compiler {
    ran: bool,
    had_error: bool,
    panic_mode: bool,
    scanner: Scanner,
    current: Token,
    previous: Token,
    comp_unit: CompilationUnit,
    class_compiler: Option<Box<ClassCompiler>>,
    diagnostics: Vec<Diagnostic>,
}

/// A token as the scanner makes it: a string literal keeps its quotes.
spec fn token_wf(t: Token) -> bool {
    t.kind == TokenKind::String ==> t.lexeme@.len() >= 2
}

spec fn abs(x: int) -> int {
    if x < 0 {
        -x
    } else {
        x
    }
}

/// `b` was made from `a` by adding code and constants and by filling in jump
/// distances: decoding `b` arrives wherever decoding `a` did, at the same instructions.
spec fn walk_kept(a: Chunk, b: Chunk) -> bool {
    forall|j: int| #[trigger] reaches(a.code@, a.constants@, 0, j) ==> {
        &&& reaches(b.code@, b.constants@, 0, j)
        &&& (0 <= j < a.code@.len() ==> b.code@[j] == a.code@[j])
    }
}

/// A 16-bit distance split into its high and low byte.
proof fn lemma_distance_bytes(d: usize)
    requires
        d <= 65535,
    ensures
        ((d >> 8usize) & 0xffusize) as u8 == (d / 256) as u8,
        (d & 0xffusize) as u8 == (d % 256) as u8,
{
    assert(((d >> 8usize) & 0xffusize) as u8 == (d / 256) as u8 && (d & 0xffusize) as u8 == (d % 256) as u8)
        by (bit_vector)
        requires
            d <= 65535,
    ;
}

/// An instruction that decoding `a` arrives at is still there, and still arrived
/// at, in `b`.
proof fn lemma_kept_at(a: Chunk, b: Chunk, j: int)
    requires
        walk_kept(a, b),
        reaches(a.code@, a.constants@, 0, j),
        0 <= j < a.code@.len(),
    ensures
        reaches(b.code@, b.constants@, 0, j),
        b.code@[j] == a.code@[j],
{
}

/// The forward jump whose distance is at `o` is an instruction of the code.
spec fn jump_pending(c: Chunk, o: int) -> bool {
    &&& 1 <= o
    &&& o + 2 <= c.code@.len()
    &&& reaches(c.code@, c.constants@, 0, o - 1)
    &&& (c.code@[o - 1] == OpCode::Jump.spec_u8() || c.code@[o - 1] == OpCode::JumpIfFalse.spec_u8())
}

impl Compiler {
    /// The code of the function being compiled.
    spec fn code(&self) -> Seq<u8> {
        self.comp_unit.function.chunk.code@
    }

    /// The constants of the function being compiled.
    spec fn consts(&self) -> Seq<Constant> {
        self.comp_unit.function.chunk.constants@
    }

    /// Where the compiler stands: its current token and the scanner after it.
    spec fn cursor(&self) -> Cursor {
        Cursor {
            kind: self.current.kind,
            text: self.current.lexeme@,
            pos: self.scanner@.pos,
            line: self.scanner@.line,
        }
    }

    /// The code of the expression at the current token, binding at least as
    /// tightly as the precedence of rank `prec`.
    spec fn expression_at(&self, prec: int) -> Option<Compiled> {
        spec_expression(self.scanner@.chars, self.cursor(), prec, self.consts().len())
    }

    /// The code of the operand whose first token is the previous token.
    spec fn operand_at(&self) -> Option<Compiled> {
        spec_operand(self.scanner@.chars, self.previous.kind, self.previous.lexeme@, self.cursor(), self.consts().len())
    }

    /// `b` is `a` with `r` compiled: its code and number constants added, no error
    /// reported, and the compiler moved on to where `r` ends.
    #[verifier::opaque]
    spec fn yields(a: Compiler, b: Compiler, r: Compiled) -> bool {
        &&& b.had_error == a.had_error
        &&& b.scanner@.chars == a.scanner@.chars
        &&& b.code() == a.code() + r.code
        &&& consts_grow(a.consts(), b.consts())
        &&& b.consts().len() == a.consts().len() + r.numbers.len()
        &&& forall|k: int|
            a.consts().len() <= k < b.consts().len() ==> is_number(
                #[trigger] b.consts()[k],
                r.numbers[k - a.consts().len()],
            )
        &&& b.cursor() == r.rest
    }

    /// Compiling `r` from a state with the same code and constants as `a` is
    /// compiling it from `a`.
    proof fn lemma_yields_from(a: Compiler, b: Compiler, c: Compiler, r: Compiled)
        requires
            b.code() == a.code(),
            b.consts() == a.consts(),
            b.had_error == a.had_error,
            b.scanner@.chars == a.scanner@.chars,
            Self::yields(b, c, r),
        ensures
            Self::yields(a, c, r),
    {
        reveal(Compiler::yields);
    }

    /// Compiling `r1` and then, from a state with the same code and constants,
    /// `r2` compiles both, one after the other.
    proof fn lemma_yields_trans(a: Compiler, b: Compiler, b2: Compiler, c: Compiler, r1: Compiled, r2: Compiled)
        requires
            Self::yields(a, b, r1),
            b2.code() == b.code(),
            b2.consts() == b.consts(),
            b2.had_error == b.had_error,
            b2.scanner@.chars == b.scanner@.chars,
            Self::yields(b2, c, r2),
        ensures
            Self::yields(a, c, Compiled { code: r1.code + r2.code, numbers: r1.numbers + r2.numbers, rest: r2.rest }),
    {
        reveal(Compiler::yields);
        let r = Compiled { code: r1.code + r2.code, numbers: r1.numbers + r2.numbers, rest: r2.rest };
        assert(c.code() =~= a.code() + r.code);
        assert forall|k: int| a.consts().len() <= k < c.consts().len() implies is_number(
            #[trigger] c.consts()[k],
            r.numbers[k - a.consts().len()],
        ) by {
            if k < b.consts().len() {
                assert(c.consts()[k] == b.consts()[k]);
                assert(r.numbers[k - a.consts().len()] == r1.numbers[k - a.consts().len()]);
            } else {
                assert(r.numbers[k - a.consts().len()] == r2.numbers[k - b.consts().len()]);
            }
        }
    }

    /// The measure of a well-formed compiler is that of where it stands.
    proof fn lemma_cursor_measure(c: Compiler)
        requires
            c.wf(),
        ensures
            cursor_measure(c.scanner@.chars, c.cursor()) == c.measure(),
    {
    }

    /// The code of `a` is still there, unchanged, at the start of the code of `b`.
    spec fn keeps_code(a: Compiler, b: Compiler) -> bool {
        &&& a.code().len() <= b.code().len()
        &&& forall|k: int| 0 <= k < a.code().len() ==> #[trigger] b.code()[k] == a.code()[k]
    }

    /// The token that the scanner reads next.
    spec fn next_token(&self) -> ScanStep {
        spec_scan(self.scanner@.chars, self.scanner@.pos, self.scanner@.line)
    }

    /// The kind of the token that the scanner reads next.
    spec fn next_kind(&self) -> TokenKind {
        self.next_token().kind
    }

    /// `b` moved from `a` to the next token, which is no error token, and reported nothing.
    spec fn took_next(a: Compiler, b: Compiler) -> bool {
        &&& b.current.kind == a.next_kind()
        &&& b.current.lexeme@ == a.next_token().lexeme
        &&& b.scanner@.pos == a.next_token().pos
        &&& b.scanner@.line == a.next_token().line
        &&& b.had_error == a.had_error
        &&& b.panic_mode == a.panic_mode
        &&& b.diagnostics == a.diagnostics
    }

    /// What is left to parse: two per character left, and one for a current token that is not `Eof`.
    spec fn measure(&self) -> int {
        2 * (self.scanner@.chars.len() - self.scanner@.pos) + if self.current.kind
            == TokenKind::Eof {
            0int
        } else {
            1int
        }
    }

    /// How far the compiler has come: the measure at the start less the measure now.
    spec fn budget(&self) -> int {
        2 * self.scanner@.chars.len() + 1 - self.measure()
    }

    /// Only the locals, the code and the error state of the function being compiled
    /// may have changed; code was only added.
    spec fn stable(a: Compiler, b: Compiler) -> bool {
        &&& Self::stable_code(a, b)
        &&& b.comp_unit.pending_jumps == a.comp_unit.pending_jumps
    }

    /// `stable`, but jumps may have been added or filled in.
    spec fn stable_code(a: Compiler, b: Compiler) -> bool {
        &&& Self::stable_base(a, b)
        &&& b.wf()
        &&& consts_grow(a.comp_unit.function.chunk.constants@, b.comp_unit.function.chunk.constants@)
        &&& (!b.had_error ==> walk_kept(a.comp_unit.function.chunk, b.comp_unit.function.chunk))
    }

    /// `stable`, but the code need not be well formed.
    spec fn stable_base(a: Compiler, b: Compiler) -> bool {
        &&& b.wf_base()
        &&& b.ran == a.ran
        &&& b.scanner == a.scanner
        &&& b.current == a.current
        &&& b.previous == a.previous
        &&& b.class_compiler == a.class_compiler
        &&& (a.had_error ==> b.had_error)
        &&& b.comp_unit.enclosing == a.comp_unit.enclosing
        &&& b.comp_unit.upvalues == a.comp_unit.upvalues
        &&& b.comp_unit.scope_depth == a.comp_unit.scope_depth
        &&& b.comp_unit.function_type == a.comp_unit.function_type
        &&& b.comp_unit.function.arity == a.comp_unit.function.arity
        &&& b.comp_unit.function.name == a.comp_unit.function.name
        &&& b.comp_unit.function.upvalue_count == a.comp_unit.function.upvalue_count
        &&& b.comp_unit.function.chunk.code@.len() >= a.comp_unit.function.chunk.code@.len()
    }


    proof fn lemma_stable_progress(a: Compiler, b: Compiler)
        requires
            a.wf(),
            a.started(),
            Self::stable(a, b),
        ensures
            Self::progress(a, b),
    {
    }

    /// Once the first token has been read, the compiler has come at least one step.
    proof fn lemma_budget_pos(c: Compiler)
        requires
            c.wf(),
            c.started(),
        ensures
            c.budget() >= 1,
    {
    }

    proof fn lemma_progress_trans(a: Compiler, b: Compiler, c: Compiler)
        requires
            Self::progress(a, b),
            Self::progress(b, c),
        ensures
            Self::progress(a, c),
    {
    }

    proof fn lemma_stable_code_progress(a: Compiler, b: Compiler)
        requires
            a.wf(),
            a.started(),
            Self::stable_code(a, b),
        ensures
            Self::progress_code(a, b),
    {
    }

    proof fn lemma_progress_code_trans(a: Compiler, b: Compiler, c: Compiler)
        requires
            Self::progress_code(a, b),
            Self::progress_code(b, c),
        ensures
            Self::progress_code(a, c),
    {
    }

    /// Appends a byte to the code of the function being compiled, with the line
    /// of the previous token.
    fn emit_byte(&mut self, byte: u8)
        requires
            old(self).wf_base(),
        ensures
            Self::stable_base(*old(self), *final(self)),
            final(self).had_error == old(self).had_error,
            final(self).comp_unit.locals == old(self).comp_unit.locals,
            final(self).comp_unit.pending_jumps == old(self).comp_unit.pending_jumps,
            final(self).comp_unit.function.chunk.code@ == old(self).comp_unit.function.chunk.code@.push(byte),
            final(self).comp_unit.function.chunk.constants@ == old(self).comp_unit.function.chunk.constants@,
    {
        let line = self.previous.line;
        self.comp_unit.function.chunk.write_chunk(byte, line);
    }

    /// Appending a well-formed instruction to the code keeps the compiler well
    /// formed; a jump must land, or be added to the jumps still to be filled in.
    proof fn lemma_emitted(a: Compiler, b: Compiler, instr: Seq<u8>)
        requires
            a.wf(),
            Self::stable_base(a, b),
            b.had_error == a.had_error,
            instr.len() > 0,
            b.comp_unit.function.chunk.code@ == a.comp_unit.function.chunk.code@ + instr,
            b.comp_unit.function.chunk.constants@ == a.comp_unit.function.chunk.constants@,
            b.comp_unit.pending_jumps@ == a.comp_unit.pending_jumps@ || b.comp_unit.pending_jumps@
                == a.comp_unit.pending_jumps@.insert(a.comp_unit.function.chunk.code@.len() as int),
            !a.had_error ==> instr_len(
                b.comp_unit.function.chunk.code@,
                b.comp_unit.function.chunk.constants@,
                a.comp_unit.function.chunk.code@.len() as int,
            ) == instr.len(),
            !a.had_error && is_jump_at(
                b.comp_unit.function.chunk.code@,
                a.comp_unit.function.chunk.code@.len() as int,
            ) && !b.comp_unit.pending_jumps@.contains(a.comp_unit.function.chunk.code@.len() as int)
                ==> reaches(
                b.comp_unit.function.chunk.code@,
                b.comp_unit.function.chunk.constants@,
                0,
                jump_target(b.comp_unit.function.chunk.code@, a.comp_unit.function.chunk.code@.len() as int),
            ),
            !a.had_error ==> captures_ok_at(
                b.comp_unit.function.chunk.code@,
                b.comp_unit.function.chunk.constants@,
                a.comp_unit.function.chunk.code@.len() as int,
                b.comp_unit.upvalues@.len() as int,
            ),
        ensures
            Self::stable_code(a, b),
    {
        if !b.had_error {
            let code = a.comp_unit.function.chunk.code@;
            let consts = a.comp_unit.function.chunk.constants@;
            let consts2 = b.comp_unit.function.chunk.constants@;
            lemma_decodes_append(code, consts, consts2, instr);
            lemma_jumps_append(
                code,
                consts,
                consts2,
                instr,
                a.comp_unit.pending_jumps@,
                b.comp_unit.pending_jumps@,
            );
            lemma_captures_append(
                code,
                consts,
                consts2,
                instr,
                a.comp_unit.upvalues@.len() as int,
                b.comp_unit.upvalues@.len() as int,
            );
        }
    }

    /// Emits an instruction without operands.
    fn emit_op(&mut self, op: OpCode)
        requires
            old(self).wf(),
            is_simple_op(op),
        ensures
            Self::stable(*old(self), *final(self)),
            final(self).had_error == old(self).had_error,
            final(self).comp_unit.locals == old(self).comp_unit.locals,
            final(self).comp_unit.function.chunk.code@ == old(self).comp_unit.function.chunk.code@.push(
                op.spec_u8(),
            ),
            final(self).comp_unit.function.chunk.constants@ == old(self).comp_unit.function.chunk.constants@,
    {
        let ghost a = *self;
        self.emit_byte(op.u8());
        proof {
            lemma_opcode_roundtrip(op);
            let instr = seq![op.spec_u8()];
            assert(self.comp_unit.function.chunk.code@ =~= a.comp_unit.function.chunk.code@ + instr);
            Self::lemma_emitted(a, *self, instr);
        }
    }

    /// Emits an instruction with one operand: a slot, an upvalue or an argument
    /// count, or the index of a constant of the chunk.
    fn emit_op_with(&mut self, op: OpCode, operand: u8)
        requires
            old(self).wf(),
            has_byte_operand(op) || (has_constant_operand(op) && operand
                < old(self).comp_unit.function.chunk.constants@.len()),
            is_upvalue_op(op) ==> operand < old(self).comp_unit.upvalues@.len(),
        ensures
            Self::stable(*old(self), *final(self)),
            final(self).had_error == old(self).had_error,
            final(self).comp_unit.locals == old(self).comp_unit.locals,
            final(self).comp_unit.function.chunk.code@ == old(self).comp_unit.function.chunk.code@.push(
                op.spec_u8(),
            ).push(operand),
            final(self).comp_unit.function.chunk.constants@ == old(self).comp_unit.function.chunk.constants@,
    {
        let ghost a = *self;
        self.emit_byte(op.u8());
        self.emit_byte(operand);
        proof {
            lemma_opcode_roundtrip(op);
            let instr = seq![op.spec_u8(), operand];
            assert(self.comp_unit.function.chunk.code@ =~= a.comp_unit.function.chunk.code@ + instr);
            Self::lemma_emitted(a, *self, instr);
        }
    }

    /// Emits a method call through a property or `super`: the index of the
    /// method's name constant, then the argument count.
    fn emit_invoke(&mut self, op: OpCode, name: u8, arg_count: u8)
        requires
            old(self).wf(),
            is_invoke_op(op),
            name < old(self).comp_unit.function.chunk.constants@.len(),
        ensures
            Self::stable(*old(self), *final(self)),
            final(self).had_error == old(self).had_error,
            final(self).comp_unit.locals == old(self).comp_unit.locals,
            final(self).comp_unit.function.chunk.code@ == old(self).comp_unit.function.chunk.code@.push(
                op.spec_u8(),
            ).push(name).push(arg_count),
            final(self).comp_unit.function.chunk.constants@ == old(self).comp_unit.function.chunk.constants@,
    {
        let ghost a = *self;
        self.emit_byte(op.u8());
        self.emit_byte(name);
        self.emit_byte(arg_count);
        proof {
            lemma_opcode_roundtrip(op);
            let instr = seq![op.spec_u8(), name, arg_count];
            assert(self.comp_unit.function.chunk.code@ =~= a.comp_unit.function.chunk.code@ + instr);
            Self::lemma_emitted(a, *self, instr);
        }
    }

    /// Emits the bytes of one whole instruction.
    fn emit_instruction(&mut self, instr: &Vec<u8>)
        requires
            old(self).wf(),
            instr@.len() > 0,
            !old(self).had_error ==> instr_len(
                old(self).comp_unit.function.chunk.code@ + instr@,
                old(self).comp_unit.function.chunk.constants@,
                old(self).comp_unit.function.chunk.code@.len() as int,
            ) == instr@.len(),
            !is_jump_at(
                old(self).comp_unit.function.chunk.code@ + instr@,
                old(self).comp_unit.function.chunk.code@.len() as int,
            ),
            !old(self).had_error ==> captures_ok_at(
                old(self).comp_unit.function.chunk.code@ + instr@,
                old(self).comp_unit.function.chunk.constants@,
                old(self).comp_unit.function.chunk.code@.len() as int,
                old(self).comp_unit.upvalues@.len() as int,
            ),
        ensures
            Self::stable(*old(self), *final(self)),
            final(self).had_error == old(self).had_error,
            final(self).comp_unit.locals == old(self).comp_unit.locals,
            final(self).comp_unit.function.chunk.code@ == old(self).comp_unit.function.chunk.code@ + instr@,
            final(self).comp_unit.function.chunk.constants@ == old(self).comp_unit.function.chunk.constants@,
    {
        let ghost a = *self;
        let mut i: usize = 0;
        while i < instr.len()
            invariant
                a.wf(),
                Self::stable_base(a, *self),
                self.had_error == a.had_error,
                self.comp_unit.locals == a.comp_unit.locals,
                self.comp_unit.pending_jumps == a.comp_unit.pending_jumps,
                i <= instr@.len(),
                self.comp_unit.function.chunk.code@ == a.comp_unit.function.chunk.code@ + instr@.subrange(
                    0,
                    i as int,
                ),
                self.comp_unit.function.chunk.constants@ == a.comp_unit.function.chunk.constants@,
            decreases instr@.len() - i,
        {
            let ghost before = self.comp_unit.function.chunk.code@;
            self.emit_byte(instr[i]);
            proof {
                assert(instr@.subrange(0, i + 1) =~= instr@.subrange(0, i as int).push(instr@[i as int]));
                assert(before.push(instr@[i as int]) =~= a.comp_unit.function.chunk.code@ + instr@.subrange(
                    0,
                    i + 1,
                ));
            }
            i = i + 1;
        }
        proof {
            assert(instr@.subrange(0, instr@.len() as int) =~= instr@);
            Self::lemma_emitted(a, *self, instr@);
        }
    }

    /// Emits the implicit return at the end of a function: `nil`, or the instance
    /// for an initializer.
    fn emit_return(&mut self)
        requires
            old(self).wf(),
        ensures
            Self::stable(*old(self), *final(self)),
            final(self).had_error == old(self).had_error,
            final(self).comp_unit.locals == old(self).comp_unit.locals,
            final(self).comp_unit.function.chunk.constants@ == old(self).comp_unit.function.chunk.constants@,
            old(self).comp_unit.function_type == FunctionType::Initializer ==> final(self).comp_unit.function.chunk.code@
                == old(self).comp_unit.function.chunk.code@.push(OpCode::GetLocal.spec_u8()).push(0u8).push(
                OpCode::Return.spec_u8(),
            ),
            old(self).comp_unit.function_type != FunctionType::Initializer ==> final(self).comp_unit.function.chunk.code@
                == old(self).comp_unit.function.chunk.code@.push(OpCode::Nil.spec_u8()).push(
                OpCode::Return.spec_u8(),
            ),
    {
        if self.comp_unit.function_type == FunctionType::Initializer {
            self.emit_op_with(OpCode::GetLocal, 0);
        } else {
            self.emit_op(OpCode::Nil);
        }
        self.emit_op(OpCode::Return);
    }

    /// Emits a jump instruction with a placeholder distance, and returns where the
    /// distance is.
    fn emit_jump(&mut self, instruction: OpCode) -> (offset: usize)
        requires
            old(self).wf(),
            instruction == OpCode::Jump || instruction == OpCode::JumpIfFalse,
        ensures
            Self::stable_code(*old(self), *final(self)),
            final(self).had_error == old(self).had_error,
            final(self).comp_unit.locals == old(self).comp_unit.locals,
            final(self).comp_unit.pending_jumps@ == old(self).comp_unit.pending_jumps@.insert(offset - 1),
            offset + 2 == final(self).comp_unit.function.chunk.code@.len(),
            final(self).comp_unit.function.chunk.code@ == old(self).comp_unit.function.chunk.code@.push(
                instruction.spec_u8(),
            ).push(0xffu8).push(0xffu8),
            final(self).comp_unit.function.chunk.constants@ == old(self).comp_unit.function.chunk.constants@,
            !final(self).had_error ==> jump_pending(final(self).comp_unit.function.chunk, offset as int),
    {
        let ghost a = *self;
        self.emit_byte(instruction.u8());
        self.emit_byte(0xff);
        self.emit_byte(0xff);
        self.comp_unit.pending_jumps = Ghost(
            self.comp_unit.pending_jumps@.insert(a.comp_unit.function.chunk.code@.len() as int),
        );
        proof {
            lemma_opcode_roundtrip(instruction);
            let instr = seq![instruction.spec_u8(), 0xffu8, 0xffu8];
            assert(self.comp_unit.function.chunk.code@ =~= a.comp_unit.function.chunk.code@ + instr);
            Self::lemma_emitted(a, *self, instr);
            let c = a.comp_unit.function.chunk;
            if !self.had_error {
                assert(reaches(c.code@, c.constants@, 0, c.code@.len() as int));
            }
        }
        self.comp_unit.function.chunk.code.len() - 2
    }

    /// Writes into the jump whose distance is at `offset` the distance to the end of
    /// the code; reports an error when it does not fit in 16 bits.
    fn patch_jump(&mut self, offset: usize)
        requires
            old(self).wf(),
            offset + 2 <= old(self).comp_unit.function.chunk.code@.len(),
            !old(self).had_error ==> jump_pending(old(self).comp_unit.function.chunk, offset as int),
        ensures
            Self::stable_code(*old(self), *final(self)),
            final(self).comp_unit.locals == old(self).comp_unit.locals,
            final(self).comp_unit.pending_jumps@ == old(self).comp_unit.pending_jumps@.remove(offset - 1),
            final(self).comp_unit.function.chunk.code@.len() == old(self).comp_unit.function.chunk.code@.len(),
            final(self).comp_unit.function.chunk.constants@ == old(self).comp_unit.function.chunk.constants@,
            forall|k: int|
                0 <= k < old(self).code().len() && k != offset && k != offset + 1 ==> #[trigger] final(self).code()[k]
                    == old(self).code()[k],
            final(self).code()[offset as int] == (((old(self).code().len() - offset - 2) as usize >> 8usize)
                & 0xffusize) as u8,
            final(self).code()[offset + 1] == ((old(self).code().len() - offset - 2) as usize & 0xffusize) as u8,
            old(self).code().len() - offset - 2 <= 65535 ==> {
                &&& final(self).had_error == old(self).had_error
                &&& final(self).diagnostics == old(self).diagnostics
                &&& jump_distance(final(self).code(), offset - 1) == old(self).code().len() - offset - 2
            },
            old(self).code().len() - offset - 2 > 65535 ==> {
                &&& final(self).had_error
                &&& old(self).panic_mode ==> final(self).diagnostics == old(self).diagnostics
                &&& !old(self).panic_mode ==> final(self).diagnostics@ == old(self).diagnostics@.push(
                    final(self).diagnostics@.last(),
                ) && final(self).diagnostics@.last().message@ == "Too much code to jump over."@
            },
            !final(self).had_error ==> jump_target(final(self).code(), offset - 1) == final(self).code().len(),
    {
        let ghost a = *self;
        let jump = self.comp_unit.function.chunk.code.len() - offset - 2;
        if jump > 65535 {
            self.error("Too much code to jump over.");
        }
        let hi = ((jump >> 8) & 0xff) as u8;
        let lo = (jump & 0xff) as u8;
        self.comp_unit.function.chunk.code.set(offset, hi);
        self.comp_unit.function.chunk.code.set(offset + 1, lo);
        self.comp_unit.pending_jumps = Ghost(self.comp_unit.pending_jumps@.remove(offset - 1));
        proof {
            lemma_opcode_roundtrip(OpCode::Jump);
            lemma_opcode_roundtrip(OpCode::JumpIfFalse);
            lemma_opcode_roundtrip(OpCode::Loop);
            if jump <= 65535 {
                assert(hi as int * 256 + lo as int == jump) by (bit_vector)
                    requires
                        jump <= 65535usize,
                        hi == ((jump >> 8) & 0xff) as u8,
                        lo == (jump & 0xff) as u8,
                ;
            }
            if !self.had_error {
                let code = a.comp_unit.function.chunk.code@;
                let consts = a.comp_unit.function.chunk.constants@;
                let o = offset as int;
                let code2 = self.comp_unit.function.chunk.code@;
                assert(code2 =~= code.update(o, hi).update(o + 1, lo));
                assert forall|j: int| #[trigger] reaches(code, consts, 0, j) implies reaches(
                    code2,
                    consts,
                    0,
                    j,
                ) && (0 <= j < code.len() ==> code2[j] == code[j]) by {
                    lemma_reaches_patch(code, consts, o, hi, lo, 0, j);
                    lemma_jump_operands_skipped(code, consts, o, j);
                }
                assert(reaches(code, consts, 0, code.len() as int));
                assert(hi as int * 256 + lo as int == jump) by (bit_vector)
                    requires
                        jump <= 65535usize,
                        hi == ((jump >> 8) & 0xff) as u8,
                        lo == (jump & 0xff) as u8,
                ;
                assert(code2[o - 1] == code[o - 1]);
                assert(jump_target(code2, o - 1) == code.len());
                lemma_jumps_patch(code, consts, o, hi, lo, a.comp_unit.pending_jumps@);
                lemma_captures_patch(code, consts, o, hi, lo, a.comp_unit.upvalues@.len() as int);
            }
        }
    }

    /// Emits a backward jump to `loop_start`, where an instruction starts.
    fn emit_loop(&mut self, loop_start: usize)
        requires
            old(self).wf(),
            loop_start <= old(self).comp_unit.function.chunk.code@.len(),
            !old(self).had_error ==> reaches(
                old(self).comp_unit.function.chunk.code@,
                old(self).comp_unit.function.chunk.constants@,
                0,
                loop_start as int,
            ),
        ensures
            Self::stable(*old(self), *final(self)),
            final(self).comp_unit.locals == old(self).comp_unit.locals,
            final(self).comp_unit.function.chunk.constants@ == old(self).comp_unit.function.chunk.constants@,
            final(self).comp_unit.function.chunk.code@.len() == old(self).comp_unit.function.chunk.code@.len() + 3,
            final(self).comp_unit.function.chunk.code@.subrange(
                0,
                old(self).comp_unit.function.chunk.code@.len() as int,
            ) == old(self).comp_unit.function.chunk.code@,
            final(self).comp_unit.function.chunk.code@[old(self).comp_unit.function.chunk.code@.len() as int]
                == OpCode::Loop.spec_u8(),
            old(self).comp_unit.function.chunk.code@.len() - loop_start + 3 <= 65535 ==> {
                &&& jump_target(
                    final(self).comp_unit.function.chunk.code@,
                    old(self).comp_unit.function.chunk.code@.len() as int,
                ) == loop_start
                &&& final(self).had_error == old(self).had_error
            },
            old(self).comp_unit.function.chunk.code@.len() - loop_start + 3 > 65535 ==> final(self).had_error,
    {
        let offset = match (self.comp_unit.function.chunk.code.len() - loop_start).checked_add(3) {
            Some(o) => o,
            None => usize::MAX,
        };
        if offset > 65535 {
            self.error("Loop body too large.");
        }
        let ghost a = *self;
        let hi = ((offset >> 8) & 0xff) as u8;
        let lo = (offset & 0xff) as u8;
        self.emit_byte(OpCode::Loop.u8());
        self.emit_byte(hi);
        self.emit_byte(lo);
        proof {
            lemma_opcode_roundtrip(OpCode::Loop);
            let instr = seq![OpCode::Loop.spec_u8(), hi, lo];
            let code = a.comp_unit.function.chunk.code@;
            let code2 = self.comp_unit.function.chunk.code@;
            assert(code2 =~= code + instr);
            assert(code2.subrange(0, code.len() as int) =~= code);
            if offset <= 65535 {
                assert(hi as int * 256 + lo as int == offset) by (bit_vector)
                    requires
                        offset <= 65535usize,
                        hi == ((offset >> 8) & 0xff) as u8,
                        lo == (offset & 0xff) as u8,
                ;
                assert(jump_target(code2, code.len() as int) == loop_start);
            }
            if !a.had_error {
                assert(code2.subrange(0, code.len() as int) =~= code);
                lemma_reaches_extend(
                    code,
                    a.comp_unit.function.chunk.constants@,
                    code2,
                    self.comp_unit.function.chunk.constants@,
                    0,
                    loop_start as int,
                );
            }
            Self::lemma_emitted(a, *self, instr);
        }
    }

    /// Adds `value` to the constants of the function being compiled and returns its
    /// index; reports an error, and returns 0, when the index does not fit in a byte.
    fn make_constant(&mut self, value: Constant) -> (idx: u8)
        requires
            old(self).wf(),
            !old(self).had_error ==> constant_ok(value),
        ensures
            Self::stable(*old(self), *final(self)),
            final(self).comp_unit.locals == old(self).comp_unit.locals,
            final(self).comp_unit.function.chunk.code@ == old(self).comp_unit.function.chunk.code@,
            final(self).comp_unit.function.chunk.constants@ == old(self).comp_unit.function.chunk.constants@.push(value),
            old(self).comp_unit.function.chunk.constants@.len() <= 255 ==> idx == old(self).comp_unit.function.chunk.constants@.len()
                && final(self).had_error == old(self).had_error,
            old(self).comp_unit.function.chunk.constants@.len() > 255 ==> idx == 0 && final(self).had_error,
            idx < final(self).comp_unit.function.chunk.constants@.len(),
    {
        let ghost a = *self;
        let constant = self.comp_unit.function.chunk.add_constant(value);
        proof {
            let c = a.comp_unit.function.chunk;
            if !self.had_error {
                lemma_jumps_more_constants(
                    c.code@,
                    c.constants@,
                    self.comp_unit.function.chunk.constants@,
                    a.comp_unit.pending_jumps@,
                );
                let n = a.comp_unit.upvalues@.len() as int;
                lemma_captures_more(c.code@, c.constants@, self.comp_unit.function.chunk.constants@, n, n);
            }
        }
        if constant > 255 {
            self.error("Too many constants in one chunk.");
            return 0;
        }
        constant as u8
    }

    fn emit_constant(&mut self, value: Constant)
        requires
            old(self).wf(),
            !old(self).had_error ==> constant_ok(value),
        ensures
            Self::stable(*old(self), *final(self)),
            final(self).comp_unit.locals == old(self).comp_unit.locals,
            final(self).comp_unit.function.chunk.constants@ == old(self).comp_unit.function.chunk.constants@.push(
                value,
            ),
            final(self).comp_unit.function.chunk.code@ == old(self).comp_unit.function.chunk.code@.push(
                OpCode::Constant.spec_u8(),
            ).push(
                if old(self).comp_unit.function.chunk.constants@.len() <= 255 {
                    old(self).comp_unit.function.chunk.constants@.len() as u8
                } else {
                    0u8
                },
            ),
            old(self).comp_unit.function.chunk.constants@.len() <= 255 ==> final(self).had_error == old(self).had_error,
            old(self).comp_unit.function.chunk.constants@.len() > 255 ==> final(self).had_error,
    {
        let constant = self.make_constant(value);
        self.emit_op_with(OpCode::Constant, constant);
    }

    /// Adds the name `name` to the constants as a string.
    fn identifier_constant(&mut self, name: String) -> (idx: u8)
        requires
            old(self).wf(),
        ensures
            Self::stable(*old(self), *final(self)),
            final(self).comp_unit.locals == old(self).comp_unit.locals,
            final(self).comp_unit.function.chunk.code@ == old(self).comp_unit.function.chunk.code@,
            idx < final(self).comp_unit.function.chunk.constants@.len(),
            idx == next_constant_byte(old(self).consts()),
            old(self).consts().len() <= 255 ==> final(self).had_error == old(self).had_error,
            final(self).consts() == old(self).consts().push(
                Constant::Str(ObjString { string: name, hash: default_hash(encode_utf8(name@)) }),
            ),
    {
        self.make_constant(Constant::Str(ObjString::new(name)))
    }

    fn begin_scope(&mut self)
        requires
            old(self).wf(),
            abs(old(self).comp_unit.scope_depth + 1) <= old(self).budget(),
        ensures
            *final(self) == (Compiler {
                comp_unit: CompilationUnit {
                    scope_depth: (old(self).comp_unit.scope_depth + 1) as i128,
                    ..old(self).comp_unit
                },
                ..*old(self)
            }),
            final(self).wf(),
    {
        self.comp_unit.scope_depth = self.comp_unit.scope_depth + 1;
    }

    /// Leaves a block scope: pops (or closes, when captured) its locals.
    #[verifier::rlimit(40)]
    fn end_scope(&mut self)
        requires
            old(self).wf(),
            abs(old(self).comp_unit.scope_depth - 1) <= old(self).budget(),
        ensures
            final(self).wf(),
            final(self).ran == old(self).ran,
            final(self).scanner == old(self).scanner,
            final(self).current == old(self).current,
            final(self).previous == old(self).previous,
            final(self).class_compiler == old(self).class_compiler,
            old(self).had_error ==> final(self).had_error,
            final(self).comp_unit.enclosing == old(self).comp_unit.enclosing,
            final(self).comp_unit.upvalues == old(self).comp_unit.upvalues,
            final(self).comp_unit.scope_depth == old(self).comp_unit.scope_depth - 1,
            final(self).comp_unit.function_type == old(self).comp_unit.function_type,
            final(self).comp_unit.function.arity == old(self).comp_unit.function.arity,
            final(self).comp_unit.function.name == old(self).comp_unit.function.name,
            final(self).comp_unit.function.upvalue_count == old(self).comp_unit.function.upvalue_count,
            final(self).comp_unit.function.chunk.code@.len() >= old(self).comp_unit.function.chunk.code@.len(),
            consts_grow(old(self).comp_unit.function.chunk.constants@, final(self).comp_unit.function.chunk.constants@),
            !final(self).had_error ==> walk_kept(old(self).comp_unit.function.chunk, final(self).comp_unit.function.chunk),
            final(self).comp_unit.pending_jumps == old(self).comp_unit.pending_jumps,
            forall|k: int| 0 <= k < old(self).code().len() ==> #[trigger] final(self).code()[k] == old(self).code()[k],
            final(self).comp_unit.locals@.len() <= old(self).comp_unit.locals@.len(),
            final(self).comp_unit.locals@ == old(self).comp_unit.locals@.subrange(
                0,
                final(self).comp_unit.locals@.len() as int,
            ),
            forall|i: int|
                final(self).comp_unit.locals@.len() <= i < old(self).comp_unit.locals@.len()
                    ==> #[trigger] old(self).comp_unit.locals@[i].depth > old(self).comp_unit.scope_depth - 1,
            final(self).comp_unit.locals@.len() > 0 ==> final(self).comp_unit.locals@.last().depth
                <= old(self).comp_unit.scope_depth - 1,
            final(self).code() == old(self).code() + drop_code(
                old(self).comp_unit.locals@,
                final(self).comp_unit.locals@.len() as int,
            ),
    {
        self.comp_unit.scope_depth = self.comp_unit.scope_depth - 1;
        while self.comp_unit.locals.len() > 0
            && self.comp_unit.locals[self.comp_unit.locals.len() - 1].depth > self.comp_unit.scope_depth
            invariant
                self.wf(),
                self.ran == old(self).ran,
                self.scanner == old(self).scanner,
                self.current == old(self).current,
                self.previous == old(self).previous,
                self.class_compiler == old(self).class_compiler,
                old(self).had_error ==> self.had_error,
                self.comp_unit.enclosing == old(self).comp_unit.enclosing,
                self.comp_unit.upvalues == old(self).comp_unit.upvalues,
                self.comp_unit.scope_depth == old(self).comp_unit.scope_depth - 1,
                self.comp_unit.function_type == old(self).comp_unit.function_type,
                self.comp_unit.function.arity == old(self).comp_unit.function.arity,
                self.comp_unit.function.name == old(self).comp_unit.function.name,
                self.comp_unit.function.upvalue_count == old(self).comp_unit.function.upvalue_count,
                self.comp_unit.function.chunk.code@.len() >= old(self).comp_unit.function.chunk.code@.len(),
                consts_grow(old(self).comp_unit.function.chunk.constants@, self.comp_unit.function.chunk.constants@),
                !self.had_error ==> walk_kept(old(self).comp_unit.function.chunk, self.comp_unit.function.chunk),
                self.comp_unit.pending_jumps == old(self).comp_unit.pending_jumps,
                forall|k: int| 0 <= k < old(self).code().len() ==> #[trigger] self.code()[k] == old(self).code()[k],
                self.comp_unit.locals@.len() <= old(self).comp_unit.locals@.len(),
                self.comp_unit.locals@ == old(self).comp_unit.locals@.subrange(0, self.comp_unit.locals@.len() as int),
                forall|i: int|
                    self.comp_unit.locals@.len() <= i < old(self).comp_unit.locals@.len()
                        ==> #[trigger] old(self).comp_unit.locals@[i].depth > old(self).comp_unit.scope_depth - 1,
                self.code() == old(self).code() + drop_code(
                    old(self).comp_unit.locals@,
                    self.comp_unit.locals@.len() as int,
                ),
            decreases self.comp_unit.locals@.len(),
        {
            let ghost before = self.code();
            let ghost n = self.comp_unit.locals@.len() as int;
            if self.comp_unit.locals[self.comp_unit.locals.len() - 1].is_captured {
                self.emit_op(OpCode::CloseUpvalue);
            } else {
                self.emit_op(OpCode::Pop);
            }
            self.comp_unit.locals.pop();
            assert forall|k: int| 0 <= k < old(self).code().len() implies #[trigger] self.code()[k] == old(
                self).code()[k] by {
                assert(self.code()[k] == before[k]);
            }
            proof {
                let l = old(self).comp_unit.locals@;
                assert(drop_code(l, n - 1) =~= drop_code(l, n).push(
                    if l[n - 1].is_captured {
                        OpCode::CloseUpvalue.spec_u8()
                    } else {
                        OpCode::Pop.spec_u8()
                    },
                ));
                assert(self.code() =~= old(self).code() + drop_code(l, n - 1));
                assert(self.comp_unit.locals@ =~= l.subrange(0, n - 1));
            }
        }
    }

    /// Adds a local variable named by `name`, not yet initialized; reports an error
    /// when the function already has 255 locals.
    fn add_local(&mut self, name: Token)
        requires
            old(self).wf(),
        ensures
            Self::stable(*old(self), *final(self)),
            final(self).comp_unit.function.chunk == old(self).comp_unit.function.chunk,
            old(self).comp_unit.locals@.len() == 255 ==> final(self).had_error && final(self).comp_unit.locals
                == old(self).comp_unit.locals,
            old(self).comp_unit.locals@.len() != 255 ==> final(self).had_error == old(self).had_error
                && final(self).comp_unit.locals@ == old(self).comp_unit.locals@.push(
                Local { name, depth: -1i128, is_captured: false },
            ),
    {
        if self.comp_unit.locals.len() == 255 {
            self.error("Too many local variables in function.");
            return;
        }
        self.comp_unit.locals.push(Local { name, depth: -1, is_captured: false });
    }

    /// Marks the newest local initialized, at the current scope depth; nothing at
    /// the top level, where variables are globals.
    fn mark_initialized(&mut self)
        requires
            old(self).wf(),
        ensures
            Self::stable(*old(self), *final(self)),
            final(self).comp_unit.function.chunk == old(self).comp_unit.function.chunk,
            final(self).had_error == old(self).had_error,
            final(self).consts() == old(self).consts(),
            final(self).comp_unit.locals@ == (if old(self).comp_unit.scope_depth == 0 {
                old(self).comp_unit.locals@
            } else {
                initialized_last(old(self).comp_unit.locals@, old(self).comp_unit.scope_depth)
            }),
    {
        if self.comp_unit.scope_depth == 0 {
            return;
        }
        let n = self.comp_unit.locals.len();
        if n > 0 {
            let name = self.comp_unit.locals[n - 1].name.clone();
            let is_captured = self.comp_unit.locals[n - 1].is_captured;
            let depth = self.comp_unit.scope_depth;
            self.comp_unit.locals.set(n - 1, Local { name, depth, is_captured });
        }
    }

    /// Declares the variable named by the previous token as a local, unless at the
    /// top level; reports an error when the scope already has one of that name.
    fn declare_variable(&mut self)
        requires
            old(self).wf(),
        ensures
            Self::stable(*old(self), *final(self)),
            final(self).comp_unit.function.chunk == old(self).comp_unit.function.chunk,
            old(self).comp_unit.scope_depth == 0 ==> *final(self) == *old(self),
            old(self).comp_unit.scope_depth != 0 && scope_has(
                old(self).comp_unit.locals@,
                old(self).comp_unit.scope_depth as int,
                old(self).previous.lexeme@,
                old(self).comp_unit.locals@.len() as int,
            ) ==> final(self).had_error && final(self).comp_unit.locals == old(self).comp_unit.locals,
            old(self).comp_unit.scope_depth != 0 && !scope_has(
                old(self).comp_unit.locals@,
                old(self).comp_unit.scope_depth as int,
                old(self).previous.lexeme@,
                old(self).comp_unit.locals@.len() as int,
            ) ==> {
                &&& old(self).comp_unit.locals@.len() == 255 ==> final(self).had_error
                    && final(self).comp_unit.locals == old(self).comp_unit.locals
                &&& old(self).comp_unit.locals@.len() != 255 ==> final(self).had_error == old(self).had_error
                    && final(self).comp_unit.locals@ == old(self).comp_unit.locals@.push(
                    Local { name: old(self).previous, depth: -1i128, is_captured: false },
                )
            },
    {
        if self.comp_unit.scope_depth == 0 {
            return;
        }
        let mut i = self.comp_unit.locals.len();
        while i > 0
            invariant_except_break
                i <= self.comp_unit.locals@.len(),
                *self == *old(self),
                old(self).wf(),
                self.comp_unit.scope_depth != 0,
                scope_has(
                    self.comp_unit.locals@,
                    self.comp_unit.scope_depth as int,
                    self.previous.lexeme@,
                    self.comp_unit.locals@.len() as int,
                ) == scope_has(
                    self.comp_unit.locals@,
                    self.comp_unit.scope_depth as int,
                    self.previous.lexeme@,
                    i as int,
                ),
            ensures
                *self == *old(self),
                old(self).wf(),
                self.comp_unit.scope_depth != 0,
                !scope_has(
                    self.comp_unit.locals@,
                    self.comp_unit.scope_depth as int,
                    self.previous.lexeme@,
                    self.comp_unit.locals@.len() as int,
                ),
            decreases i,
        {
            i = i - 1;
            let depth = self.comp_unit.locals[i].depth;
            if depth >= 0 && depth < self.comp_unit.scope_depth {
                break;
            }
            if self.comp_unit.locals[i].name.lexeme == self.previous.lexeme {
                return self.error("Already a variable with this name in this scope.");
            }
        }
        let name = self.previous.clone();
        self.add_local(name)
    }

    /// Makes the variable just declared usable: marks the local initialized, or at
    /// the top level emits the definition of the global whose name is constant `global`.
    fn define_variable(&mut self, global: u8)
        requires
            old(self).wf(),
            old(self).comp_unit.scope_depth <= 0 ==> global
                < old(self).comp_unit.function.chunk.constants@.len(),
        ensures
            Self::stable(*old(self), *final(self)),
            final(self).had_error == old(self).had_error,
            final(self).consts() == old(self).consts(),
            old(self).comp_unit.scope_depth > 0 ==> final(self).comp_unit.locals@ == initialized_last(
                old(self).comp_unit.locals@,
                old(self).comp_unit.scope_depth,
            ) && final(self).comp_unit.function.chunk.code@ == old(self).comp_unit.function.chunk.code@,
            old(self).comp_unit.scope_depth <= 0 ==> final(self).comp_unit.locals == old(self).comp_unit.locals && final(self).comp_unit.function.chunk.code@
                == old(self).comp_unit.function.chunk.code@.push(OpCode::DefineGlobal.spec_u8()).push(
                global,
            ),
    {
        if self.comp_unit.scope_depth > 0 {
            self.mark_initialized();
            return;
        }
        self.emit_op_with(OpCode::DefineGlobal, global);
    }


    /// Ends the function being compiled: emits its implicit return, makes the
    /// enclosing function the one being compiled, and returns the finished function.
    fn end_comp_unit(&mut self) -> (f: Function)
        requires
            old(self).wf(),
        ensures
            final(self).wf(),
            final(self).ran == old(self).ran,
            final(self).scanner == old(self).scanner,
            final(self).current == old(self).current,
            final(self).previous == old(self).previous,
            final(self).class_compiler == old(self).class_compiler,
            final(self).had_error == old(self).had_error,
            !old(self).had_error ==> f.chunk.decodes(),
            !old(self).had_error && old(self).comp_unit.pending_jumps@ == Set::<int>::empty()
                ==> function_ok(f),
            f.arity == old(self).comp_unit.function.arity,
            f.name == old(self).comp_unit.function.name,
            f.upvalue_count == old(self).comp_unit.upvalues@.len(),
            f.upvalue_count <= 255,
            f.chunk.wf(),
            f.chunk.constants@ == old(self).comp_unit.function.chunk.constants@,
            old(self).comp_unit.function_type != FunctionType::Initializer ==> f.chunk.code@
                == old(self).comp_unit.function.chunk.code@.push(OpCode::Nil.spec_u8()).push(
                OpCode::Return.spec_u8(),
            ),
            old(self).comp_unit.enclosing matches Some(e) ==> final(self).comp_unit == *e,
            old(self).comp_unit.enclosing is None ==> final(self).comp_unit.enclosing is None
                && unit_depth(final(self).comp_unit) == 0,
    {
        self.emit_return();
        if self.comp_unit.enclosing.is_some() {
            let enc = self.comp_unit.enclosing.take().unwrap();
            let mut unit = *enc;
            std::mem::swap(&mut unit, &mut self.comp_unit);
            unit.function
        } else {
            let mut f = Function::new(None);
            std::mem::swap(&mut f, &mut self.comp_unit.function);
            self.comp_unit.pending_jumps = Ghost(Set::empty());
            f
        }
    }

    /// Reads a variable name (reporting `error_message` when there is none) and
    /// declares it; returns the index of its name constant for a global, 0 for a local.
    fn parse_variable(&mut self, error_message: &str) -> (global: u8)
        requires
            old(self).wf(),
            old(self).started(),
        ensures
            old(self).comp_unit.scope_depth <= 0 ==> global == next_constant_byte(old(self).consts()),
            old(self).comp_unit.scope_depth > 0 ==> global == 0,
            final(self).consts().len() == old(self).consts().len() + (if old(self).comp_unit.scope_depth <= 0 {
                1int
            } else {
                0int
            }),
            old(self).comp_unit.scope_depth > 0 && !final(self).had_error ==> final(self).comp_unit.locals@
                == old(self).comp_unit.locals@.push(
                Local { name: old(self).current, depth: -1i128, is_captured: false },
            ),
            !final(self).had_error ==> final(self).previous == old(self).current,
            old(self).current.kind == TokenKind::Identifier ==> final(self).previous == old(self).current,
            final(self).code() == old(self).code(),
            Self::progress(*old(self), *final(self)),
            final(self).class_compiler == old(self).class_compiler,
            final(self).comp_unit.scope_depth == old(self).comp_unit.scope_depth,
            final(self).comp_unit.enclosing == old(self).comp_unit.enclosing,
            final(self).comp_unit.scope_depth <= 0 ==> global
                < final(self).comp_unit.function.chunk.constants@.len(),
            old(self).current.kind == TokenKind::Identifier ==> final(self).measure()
                < old(self).measure() && old(self).scanner@.start < final(self).scanner@.start,
            old(self).current.kind == TokenKind::Identifier && old(self).next_kind() != TokenKind::Error
                ==> final(self).current.kind == old(self).next_kind(),
            old(self).current.kind == TokenKind::Identifier && old(self).next_kind() != TokenKind::Error
                && old(self).comp_unit.scope_depth == 0 && old(self).consts().len() <= 255 ==> {
                &&& final(self).cursor() == next_cursor(old(self).scanner@.chars, old(self).cursor())
                &&& final(self).had_error == old(self).had_error
            },
    {
        self.consume(TokenKind::Identifier, error_message);
        let ghost mid = *self;
        self.declare_variable();
        proof {
            Self::lemma_stable_progress(mid, *self);
        }
        if self.comp_unit.scope_depth > 0 {
            return 0;
        }
        let name = self.previous.lexeme.clone();
        let ghost mid2 = *self;
        let r = self.identifier_constant(name);
        proof {
            Self::lemma_stable_progress(mid2, *self);
            if old(self).current.kind == TokenKind::Identifier && old(self).next_kind() != TokenKind::Error
                && old(self).comp_unit.scope_depth == 0 && old(self).consts().len() <= 255 {
                assert(Self::took_next(*old(self), mid));
                assert(mid.cursor() == next_cursor(old(self).scanner@.chars, old(self).cursor()));
                assert(mid2 == mid);
                assert(self.cursor() == mid2.cursor());
            }
        }
        r
    }


    // -- Expressions --------------------------------------------------------

    /// Compiles an expression whose operators all bind at least as tightly as `precedence`.
    #[verifier::rlimit(80)]
    fn parse_precedence(&mut self, precedence: Precedence)
        requires
            old(self).wf(),
            old(self).started(),
            precedence.rank() >= 1,
        ensures
            !final(self).had_error ==> final(self).code().len() > old(self).code().len(),
            Self::progress(*old(self), *final(self)),
            final(self).class_compiler == old(self).class_compiler,
            final(self).comp_unit.scope_depth == old(self).comp_unit.scope_depth,
            final(self).comp_unit.locals == old(self).comp_unit.locals,
            old(self).comp_unit.upvalues@.len() <= final(self).comp_unit.upvalues@.len(),
            old(self).current.kind != TokenKind::Eof ==> final(self).measure() < old(self).measure(),
            !old(self).had_error ==> (old(self).expression_at(precedence.rank() as int) matches Some(r)
                ==> Self::yields(*old(self), *final(self), r)),
            Self::keeps_code(*old(self), *final(self)),
        decreases old(self).measure(), 0int,
    {
        let ghost a = *self;
        let ghost sch = self.scanner@.chars;
        let ghost nk = self.consts().len();
        let ghost prec = precedence.rank() as int;
        let ghost total = a.expression_at(prec);
        let ghost frag = !a.had_error && total is Some;
        proof {
            Self::lemma_cursor_measure(a);
        }
        self.advance();
        let can_assign = precedence.to_u8() <= Precedence::Assignment.to_u8();
        let prefix_rule = get_rule(self.previous.kind).prefix;
        let ghost s1 = *self;
        match prefix_rule {
            Some(rule) => self.apply_prefix(rule, can_assign),
            None => {
                self.error("Expect expression.");
                return;
            },
        }
        let ghost p0 = match s1.operand_at() {
            Some(p) => p,
            None => Compiled { code: Seq::empty(), numbers: Seq::empty(), rest: s1.cursor() },
        };
        let ghost ops_total = spec_operators(sch, p0, prec, nk);
        let ghost mut acc: Compiled = p0;
        proof {
            if frag {
                assert(s1.operand_at() == spec_operand(sch, a.cursor().kind, a.cursor().text, next_cursor(sch, a.cursor()), nk));
                assert(s1.operand_at() is Some);
                Self::lemma_yields_from(a, s1, *self, acc);
                Self::lemma_cursor_measure(*self);
                assert(ops_total == total);
            }
        }
        while precedence.to_u8() <= get_rule(self.current.kind).precedence.to_u8()
            invariant
                frag ==> Self::yields(a, *self, acc),
                Self::keeps_code(a, *self),
                frag ==> spec_operators(sch, acc, prec, nk) == ops_total,
                frag ==> ops_total == total,
                frag == (!a.had_error && total is Some),
                a == *old(self),
                sch == a.scanner@.chars,
                nk == a.consts().len(),
                prec == precedence.rank(),
                can_assign == (prec <= Precedence::Assignment.rank()),
                Self::progress(*old(self), *self),
                self.class_compiler == old(self).class_compiler,
                self.comp_unit.scope_depth == old(self).comp_unit.scope_depth,
                self.comp_unit.locals == old(self).comp_unit.locals,
                old(self).comp_unit.upvalues@.len() <= self.comp_unit.upvalues@.len(),
                self.measure() < old(self).measure(),
                precedence.rank() >= 1,
                !self.had_error ==> self.code().len() > old(self).code().len(),
            decreases self.measure(),
        {
            let ghost before = *self;
            proof {
                Self::lemma_cursor_measure(before);
            }
            self.advance();
            let ghost s1b = *self;
            let infix_rule = get_rule(self.previous.kind).infix;
            match infix_rule {
                Some(rule) => self.apply_infix(rule, can_assign),
                None => {
                    self.error("Compiler internal error \u{af}\\_(\u{30c4})_/\u{af}.");
                },
            }
            proof {
                Self::lemma_progress_trans(*old(self), before, *self);
                if frag {
                    let t = acc.rest;
                    reveal(Compiler::yields);
                    assert(t == before.cursor());
                    assert(prec <= precedence_of(t.kind).rank());
                    assert(spec_operators(sch, acc, prec, nk) is Some);
                    if is_binary_op(t.kind) {
                        let rp = precedence_of(t.kind).spec_next().rank() as int;
                        let r = spec_expression(sch, next_cursor(sch, t), rp, nk + acc.numbers.len())->0;
                        assert(s1b.expression_at(rp) == Some(r));
                        Self::lemma_cursor_measure(*self);
                        let acc2 = Compiled {
                            code: acc.code + r.code + binary_code(t.kind),
                            numbers: acc.numbers + r.numbers,
                            rest: r.rest,
                        };
                        Self::lemma_yields_trans(
                            a,
                            before,
                            s1b,
                            *self,
                            acc,
                            Compiled { code: r.code + binary_code(t.kind), numbers: r.numbers, rest: r.rest },
                        );
                        assert(acc.code + (r.code + binary_code(t.kind)) =~= acc2.code);
                        assert(spec_operators(sch, acc, prec, nk) == spec_operators(sch, acc2, prec, nk));
                        acc = acc2;
                    } else {
                        assert(t.kind == TokenKind::And || t.kind == TokenKind::Or);
                        let rp = precedence_of(t.kind).rank() as int;
                        let r = spec_expression(sch, next_cursor(sch, t), rp, nk + acc.numbers.len())->0;
                        assert(s1b.expression_at(rp) == Some(r));
                        Self::lemma_cursor_measure(*self);
                        let acc2 = Compiled {
                            code: acc.code + logic_code(t.kind, r.code),
                            numbers: acc.numbers + r.numbers,
                            rest: r.rest,
                        };
                        Self::lemma_yields_trans(
                            a,
                            before,
                            s1b,
                            *self,
                            acc,
                            Compiled { code: logic_code(t.kind, r.code), numbers: r.numbers, rest: r.rest },
                        );
                        assert(spec_operators(sch, acc, prec, nk) == spec_operators(sch, acc2, prec, nk));
                        acc = acc2;
                    }
                }
            }
        }
        proof {
            if frag {
                reveal(Compiler::yields);
                assert(acc.rest == self.cursor());
                assert(prec > precedence_of(acc.rest.kind).rank());
                assert(spec_operators(sch, acc, prec, nk) == Some(acc));
                assert(total == Some(acc));
                assert(!(can_assign && self.current.kind == TokenKind::Equal));
            }
        }
        if can_assign && self.match_token(TokenKind::Equal) {
            self.error("Invalid assignment target");
        }
    }

    fn apply_prefix(&mut self, rule: PrefixRule, can_assign: bool)
        requires
            old(self).wf(),
            old(self).started(),
            prefix_of(old(self).previous.kind) == Some(rule),
        ensures
            !final(self).had_error ==> final(self).code().len() > old(self).code().len(),
            rule == PrefixRule::Literal ==> final(self).code() == old(self).code().push(
                literal_op(old(self).previous.kind).spec_u8(),
            ),
            rule == PrefixRule::Number ==> final(self).consts() == old(self).consts().push(
                Constant::Number(old(self).previous.lexeme),
            ),
            rule == PrefixRule::Number || rule == PrefixRule::Str ==> final(self).code() == old(self).code().push(OpCode::Constant.spec_u8()).push(next_constant_byte(old(self).consts())),
            rule == PrefixRule::Unary ==> final(self).code().len() > old(self).code().len() && final(self).code().last() == (if old(self).previous.kind == TokenKind::Minus {
                OpCode::Negate
            } else {
                OpCode::Not
            }).spec_u8(),
            rule == PrefixRule::Grouping && !final(self).had_error ==> final(self).previous.kind
                == TokenKind::RightParen,
            rule == PrefixRule::Variable ==> final(self).code().len() >= old(self).code().len() + 2 && (is_get_op(
                final(self).code()[final(self).code().len() - 2],
            ) || is_set_op(final(self).code()[final(self).code().len() - 2])),
            Self::progress(*old(self), *final(self)),
            final(self).class_compiler == old(self).class_compiler,
            final(self).comp_unit.scope_depth == old(self).comp_unit.scope_depth,
            final(self).comp_unit.locals == old(self).comp_unit.locals,
            old(self).comp_unit.upvalues@.len() <= final(self).comp_unit.upvalues@.len(),
            !old(self).had_error ==> (old(self).operand_at() matches Some(r) ==> Self::yields(
                *old(self),
                *final(self),
                r,
            )),
            Self::keeps_code(*old(self), *final(self)),
        decreases old(self).measure(), 5int,
    {
        match rule {
            PrefixRule::Grouping => self.grouping(can_assign),
            PrefixRule::Unary => self.unary(can_assign),
            PrefixRule::Variable => self.variable(can_assign),
            PrefixRule::Str => self.string(can_assign),
            PrefixRule::Number => self.number(can_assign),
            PrefixRule::Literal => self.literal(can_assign),
            PrefixRule::Super => self.super_(can_assign),
            PrefixRule::This => self.this(can_assign),
        }
    }

    fn apply_infix(&mut self, rule: InfixRule, can_assign: bool)
        requires
            old(self).wf(),
            old(self).started(),
            infix_of(old(self).previous.kind) == Some(rule),
        ensures
            final(self).code().len() > old(self).code().len(),
            rule == InfixRule::Binary ==> final(self).code().last() == binary_last(
                old(self).previous.kind,
            ).spec_u8(),
            rule == InfixRule::Call ==> final(self).code().len() >= old(self).code().len() + 2 && final(self).code()[final(self).code().len() - 2] == OpCode::Call.spec_u8(),
            (rule == InfixRule::And || rule == InfixRule::Or) && !final(self).had_error ==> final(self).code()[old(self).code().len() as int] == OpCode::JumpIfFalse.spec_u8(),
            Self::progress(*old(self), *final(self)),
            final(self).class_compiler == old(self).class_compiler,
            final(self).comp_unit.scope_depth == old(self).comp_unit.scope_depth,
            final(self).comp_unit.locals == old(self).comp_unit.locals,
            old(self).comp_unit.upvalues@.len() <= final(self).comp_unit.upvalues@.len(),
            rule == InfixRule::Binary && !old(self).had_error ==> (old(self).expression_at(
                precedence_of(old(self).previous.kind).spec_next().rank() as int,
            ) matches Some(r) ==> Self::yields(
                *old(self),
                *final(self),
                Compiled { code: r.code + binary_code(old(self).previous.kind), numbers: r.numbers, rest: r.rest },
            )),
            Self::keeps_code(*old(self), *final(self)),
            (rule == InfixRule::And || rule == InfixRule::Or) && !old(self).had_error ==> (old(self).expression_at(
                precedence_of(old(self).previous.kind).rank() as int,
            ) matches Some(r) ==> (r.code.len() + 1 <= 65535 ==> Self::yields(
                *old(self),
                *final(self),
                Compiled { code: logic_code(old(self).previous.kind, r.code), numbers: r.numbers, rest: r.rest },
            ))),
        decreases old(self).measure(), 5int,
    {
        match rule {
            InfixRule::Call => self.call(can_assign),
            InfixRule::Dot => self.dot(can_assign),
            InfixRule::Binary => self.binary(can_assign),
            InfixRule::And => self.and(can_assign),
            InfixRule::Or => self.or(can_assign),
        }
    }

    fn expression(&mut self)
        requires
            old(self).wf(),
            old(self).started(),
        ensures
            !final(self).had_error ==> final(self).code().len() > old(self).code().len(),
            Self::progress(*old(self), *final(self)),
            final(self).class_compiler == old(self).class_compiler,
            final(self).comp_unit.scope_depth == old(self).comp_unit.scope_depth,
            final(self).comp_unit.locals == old(self).comp_unit.locals,
            old(self).comp_unit.upvalues@.len() <= final(self).comp_unit.upvalues@.len(),
            old(self).current.kind != TokenKind::Eof ==> final(self).measure() < old(self).measure(),
            !old(self).had_error ==> (old(self).expression_at(Precedence::Assignment.rank() as int)
                matches Some(r) ==> Self::yields(*old(self), *final(self), r)),
            Self::keeps_code(*old(self), *final(self)),
        decreases old(self).measure(), 1int,
    {
        self.parse_precedence(Precedence::Assignment)
    }

    fn number(&mut self, _can_assign: bool)
        requires
            old(self).wf(),
            old(self).started(),
        ensures
            final(self).consts() == old(self).consts().push(Constant::Number(old(self).previous.lexeme)),
            final(self).code() == old(self).code().push(OpCode::Constant.spec_u8()).push(
                next_constant_byte(old(self).consts()),
            ),
            Self::progress(*old(self), *final(self)),
            final(self).class_compiler == old(self).class_compiler,
            final(self).comp_unit.scope_depth == old(self).comp_unit.scope_depth,
            final(self).comp_unit.locals == old(self).comp_unit.locals,
            old(self).comp_unit.upvalues@.len() <= final(self).comp_unit.upvalues@.len(),
            !old(self).had_error && old(self).previous.kind == TokenKind::Number ==> (old(self).operand_at()
                matches Some(r) ==> Self::yields(*old(self), *final(self), r)),
            Self::keeps_code(*old(self), *final(self)),
    {
        let value = Constant::Number(self.previous.lexeme.clone());
        let ghost before = *self;
        self.emit_constant(value);
        proof {
            Self::lemma_stable_progress(before, *self);
            reveal(Compiler::yields);
            if !before.had_error && before.previous.kind == TokenKind::Number && before.operand_at() is Some {
                let r = before.operand_at()->0;
                assert(self.code() =~= before.code() + r.code);
                assert(is_number(self.consts()[before.consts().len() as int], r.numbers[0]));
            }
        }
    }

    fn grouping(&mut self, _can_assign: bool)
        requires
            old(self).wf(),
            old(self).started(),
        ensures
            !final(self).had_error ==> final(self).previous.kind == TokenKind::RightParen && final(self).code().len() > old(self).code().len(),
            Self::progress(*old(self), *final(self)),
            final(self).class_compiler == old(self).class_compiler,
            final(self).comp_unit.scope_depth == old(self).comp_unit.scope_depth,
            final(self).comp_unit.locals == old(self).comp_unit.locals,
            old(self).comp_unit.upvalues@.len() <= final(self).comp_unit.upvalues@.len(),
            !old(self).had_error && old(self).previous.kind == TokenKind::LeftParen ==> (old(self).operand_at()
                matches Some(r) ==> Self::yields(*old(self), *final(self), r)),
            Self::keeps_code(*old(self), *final(self)),
        decreases old(self).measure(), 4int,
    {
        let ghost a = *self;
        self.expression();
        let ghost mid = *self;
        self.consume(TokenKind::RightParen, "Expect ')' after expression.");
        proof {
            reveal(Compiler::yields);
            if !a.had_error && a.previous.kind == TokenKind::LeftParen && a.operand_at() is Some {
                let r = a.operand_at()->0;
                assert(mid.next_token() == spec_scan(a.scanner@.chars, mid.cursor().pos, mid.cursor().line));
                assert(self.code() =~= a.code() + r.code);
            }
        }
    }

    fn unary(&mut self, _can_assign: bool)
        requires
            old(self).wf(),
            old(self).started(),
            old(self).previous.kind == TokenKind::Minus || old(self).previous.kind
                == TokenKind::Bang,
        ensures
            final(self).code().len() > old(self).code().len(),
            final(self).code().last() == (if old(self).previous.kind == TokenKind::Minus {
                OpCode::Negate
            } else {
                OpCode::Not
            }).spec_u8(),
            Self::progress(*old(self), *final(self)),
            final(self).class_compiler == old(self).class_compiler,
            final(self).comp_unit.scope_depth == old(self).comp_unit.scope_depth,
            final(self).comp_unit.locals == old(self).comp_unit.locals,
            old(self).comp_unit.upvalues@.len() <= final(self).comp_unit.upvalues@.len(),
            !old(self).had_error ==> (old(self).operand_at() matches Some(r) ==> Self::yields(
                *old(self),
                *final(self),
                r,
            )),
            Self::keeps_code(*old(self), *final(self)),
        decreases old(self).measure(), 4int,
    {
        let operator_type = self.previous.kind;
        let ghost a = *self;
        // Compile the operand.
        self.parse_precedence(Precedence::Unary);
        // Emit the operator instruction.
        let ghost before = *self;
        if operator_type == TokenKind::Minus {
            self.emit_op(OpCode::Negate);
        } else {
            self.emit_op(OpCode::Not);
        }
        proof {
            Self::lemma_stable_progress(before, *self);
            reveal(Compiler::yields);
            if !a.had_error && a.operand_at() is Some {
                let r = a.operand_at()->0;
                assert(self.code() =~= a.code() + r.code);
            }
        }
    }

    fn binary(&mut self, _can_assign: bool)
        requires
            old(self).wf(),
            old(self).started(),
            infix_of(old(self).previous.kind) == Some(InfixRule::Binary),
        ensures
            final(self).code().len() > old(self).code().len(),
            final(self).code().last() == binary_last(old(self).previous.kind).spec_u8(),
            binary_negated(old(self).previous.kind) ==> final(self).code().len() >= old(self).code().len()
                + 2 && final(self).code()[final(self).code().len() - 2] == binary_opposite(
                old(self).previous.kind,
            ).spec_u8(),
            Self::progress(*old(self), *final(self)),
            final(self).class_compiler == old(self).class_compiler,
            final(self).comp_unit.scope_depth == old(self).comp_unit.scope_depth,
            final(self).comp_unit.locals == old(self).comp_unit.locals,
            old(self).comp_unit.upvalues@.len() <= final(self).comp_unit.upvalues@.len(),
            !old(self).had_error ==> (old(self).expression_at(
                precedence_of(old(self).previous.kind).spec_next().rank() as int,
            ) matches Some(r) ==> Self::yields(
                *old(self),
                *final(self),
                Compiled { code: r.code + binary_code(old(self).previous.kind), numbers: r.numbers, rest: r.rest },
            )),
            Self::keeps_code(*old(self), *final(self)),
        decreases old(self).measure(), 4int,
    {
        let operator_type = self.previous.kind;
        let ghost a = *self;
        let rule = get_rule(operator_type);
        self.parse_precedence(rule.precedence.next());
        let ghost before = *self;
        if operator_type == TokenKind::BangEqual {
            self.emit_op(OpCode::Equal);
            self.emit_op(OpCode::Not);
        } else if operator_type == TokenKind::EqualEqual {
            self.emit_op(OpCode::Equal);
        } else if operator_type == TokenKind::Greater {
            self.emit_op(OpCode::Greater);
        } else if operator_type == TokenKind::GreaterEqual {
            self.emit_op(OpCode::Less);
            self.emit_op(OpCode::Not);
        } else if operator_type == TokenKind::Less {
            self.emit_op(OpCode::Less);
        } else if operator_type == TokenKind::LessEqual {
            self.emit_op(OpCode::Greater);
            self.emit_op(OpCode::Not);
        } else if operator_type == TokenKind::Plus {
            self.emit_op(OpCode::Add);
        } else if operator_type == TokenKind::Minus {
            self.emit_op(OpCode::Subtract);
        } else if operator_type == TokenKind::Star {
            self.emit_op(OpCode::Multiply);
        } else {
            self.emit_op(OpCode::Divide);
        }
        proof {
            Self::lemma_stable_progress(before, *self);
            reveal(Compiler::yields);
            assert(self.code() =~= before.code() + binary_code(operator_type));
            if !a.had_error && a.expression_at(precedence_of(operator_type).spec_next().rank() as int) is Some {
                let r = a.expression_at(precedence_of(operator_type).spec_next().rank() as int)->0;
                assert(self.code() =~= a.code() + (r.code + binary_code(operator_type)));
            }
        }
    }

    fn literal(&mut self, _can_assign: bool)
        requires
            old(self).wf(),
            old(self).started(),
        ensures
            final(self).code() == old(self).code().push(literal_op(old(self).previous.kind).spec_u8()),
            final(self).consts() == old(self).consts(),
            final(self).had_error == old(self).had_error,
            Self::progress(*old(self), *final(self)),
            final(self).class_compiler == old(self).class_compiler,
            final(self).comp_unit.scope_depth == old(self).comp_unit.scope_depth,
            final(self).comp_unit.locals == old(self).comp_unit.locals,
            old(self).comp_unit.upvalues@.len() <= final(self).comp_unit.upvalues@.len(),
            !old(self).had_error && (old(self).previous.kind == TokenKind::True || old(self).previous.kind
                == TokenKind::False || old(self).previous.kind == TokenKind::Nil) ==> (old(self).operand_at()
                matches Some(r) ==> Self::yields(*old(self), *final(self), r)),
            Self::keeps_code(*old(self), *final(self)),
    {
        let ghost before = *self;
        if self.previous.kind == TokenKind::False {
            self.emit_op(OpCode::False);
        } else if self.previous.kind == TokenKind::Nil {
            self.emit_op(OpCode::Nil);
        } else {
            self.emit_op(OpCode::True);
        }
        proof {
            Self::lemma_stable_progress(before, *self);
            reveal(Compiler::yields);
            if (before.previous.kind == TokenKind::True || before.previous.kind == TokenKind::False
                || before.previous.kind == TokenKind::Nil) && before.operand_at() is Some {
                let r = before.operand_at()->0;
                assert(self.code() =~= before.code() + r.code);
            }
        }
    }

    /// Compiles a string literal: its text without the quotes becomes a constant.
    fn string(&mut self, _can_assign: bool)
        requires
            old(self).wf(),
            old(self).started(),
            old(self).previous.kind == TokenKind::String,
        ensures
            final(self).consts().len() == old(self).consts().len() + 1,
            final(self).consts().last() matches Constant::Str(o) && o.string@ == old(self).previous.lexeme@.subrange(1, old(self).previous.lexeme@.len() - 1),
            final(self).code() == old(self).code().push(OpCode::Constant.spec_u8()).push(
                next_constant_byte(old(self).consts()),
            ),
            Self::progress(*old(self), *final(self)),
            final(self).class_compiler == old(self).class_compiler,
            final(self).comp_unit.scope_depth == old(self).comp_unit.scope_depth,
            final(self).comp_unit.locals == old(self).comp_unit.locals,
            old(self).comp_unit.upvalues@.len() <= final(self).comp_unit.upvalues@.len(),
            Self::keeps_code(*old(self), *final(self)),
    {
        let n = self.previous.lexeme.as_str().unicode_len();
        let inner = self.previous.lexeme.as_str().substring_char(1, n - 1);
        let str_obj = Constant::Str(ObjString::new(inner.to_owned()));
        let ghost before = *self;
        self.emit_constant(str_obj);
        proof {
            Self::lemma_stable_progress(before, *self);
        }
    }

    fn variable(&mut self, can_assign: bool)
        requires
            old(self).wf(),
            old(self).started(),
        ensures
            final(self).code().len() >= old(self).code().len() + 2,
            is_get_op(final(self).code()[final(self).code().len() - 2]) || is_set_op(
                final(self).code()[final(self).code().len() - 2],
            ),
            !(can_assign && old(self).current.kind == TokenKind::Equal) ==> final(self).code().len()
                == old(self).code().len() + 2 && is_get_op(final(self).code()[old(self).code().len() as int]),
            can_assign && old(self).current.kind == TokenKind::Equal ==> is_set_op(
                final(self).code()[final(self).code().len() - 2],
            ),
            find_local(old(self).comp_unit.locals@, old(self).previous.lexeme@, old(self).comp_unit.locals@.len() as int)
                matches Some(i) ==> (old(self).comp_unit.locals@[i].depth != -1 ==> final(self).code()[final(self).code().len() - 1] == i && (final(self).code()[final(self).code().len() - 2]
                == OpCode::GetLocal.spec_u8() || final(self).code()[final(self).code().len() - 2]
                == OpCode::SetLocal.spec_u8())),
            Self::progress(*old(self), *final(self)),
            final(self).class_compiler == old(self).class_compiler,
            final(self).comp_unit.scope_depth == old(self).comp_unit.scope_depth,
            final(self).comp_unit.locals == old(self).comp_unit.locals,
            old(self).comp_unit.upvalues@.len() <= final(self).comp_unit.upvalues@.len(),
            !can_assign ==> final(self).previous == old(self).previous,
            Self::keeps_code(*old(self), *final(self)),
        decreases old(self).measure(), 3int,
    {
        let name = self.previous.lexeme.clone();
        self.named_variable(name, can_assign);
    }

    /// Compiles a read of the variable `name` (a local, a captured variable or a
    /// global), or, where assignment is allowed and `=` follows, an assignment to it.
    #[verifier::rlimit(50)]
    fn named_variable(&mut self, name: String, can_assign: bool)
        requires
            old(self).wf(),
            old(self).started(),
        ensures
            final(self).code().len() >= old(self).code().len() + 2,
            is_get_op(final(self).code()[final(self).code().len() - 2]) || is_set_op(
                final(self).code()[final(self).code().len() - 2],
            ),
            !(can_assign && old(self).current.kind == TokenKind::Equal) ==> final(self).code().len()
                == old(self).code().len() + 2 && is_get_op(final(self).code()[old(self).code().len() as int]),
            can_assign && old(self).current.kind == TokenKind::Equal ==> is_set_op(
                final(self).code()[final(self).code().len() - 2],
            ),
            find_local(old(self).comp_unit.locals@, name@, old(self).comp_unit.locals@.len() as int)
                matches Some(i) ==> (old(self).comp_unit.locals@[i].depth != -1 ==> final(self).code()[final(self).code().len() - 1] == i && (final(self).code()[final(self).code().len() - 2]
                == OpCode::GetLocal.spec_u8() || final(self).code()[final(self).code().len() - 2]
                == OpCode::SetLocal.spec_u8())),
            find_local(old(self).comp_unit.locals@, name@, old(self).comp_unit.locals@.len() as int)
                matches Some(i) ==> (old(self).comp_unit.locals@[i].depth == -1 ==> final(self).had_error),
            find_local(old(self).comp_unit.locals@, name@, old(self).comp_unit.locals@.len() as int) is None
                && !in_enclosing(old(self).comp_unit, name@) ==> {
                &&& final(self).code()[final(self).code().len() - 2] == OpCode::GetGlobal.spec_u8()
                    || final(self).code()[final(self).code().len() - 2] == OpCode::SetGlobal.spec_u8()
                &&& final(self).code()[final(self).code().len() - 1] == next_constant_byte(old(self).consts())
                &&& old(self).consts().len() < final(self).consts().len()
                &&& final(self).consts()[old(self).consts().len() as int] == Constant::Str(
                    ObjString { string: name, hash: default_hash(encode_utf8(name@)) },
                )
            },
            find_local(old(self).comp_unit.locals@, name@, old(self).comp_unit.locals@.len() as int) is None
                && in_enclosing(old(self).comp_unit, name@) && !final(self).had_error ==> (final(self).code()[
                final(self).code().len() - 2] == OpCode::GetUpvalue.spec_u8() || final(self).code()[
                final(self).code().len() - 2] == OpCode::SetUpvalue.spec_u8()),
            old(self).comp_unit.enclosing matches Some(e) ==> (find_local(e.locals@, name@, e.locals@.len() as int)
                matches Some(k) ==> (upvalue_slot(old(self).comp_unit.upvalues@, k as u8, true) matches Some(j)
                ==> (find_local(old(self).comp_unit.locals@, name@, old(self).comp_unit.locals@.len() as int)
                is None && e.locals@[k].depth != -1 ==> {
                &&& final(self).code()[final(self).code().len() - 2] == OpCode::GetUpvalue.spec_u8()
                    || final(self).code()[final(self).code().len() - 2] == OpCode::SetUpvalue.spec_u8()
                &&& final(self).code()[final(self).code().len() - 1] == j
            }))),
            Self::progress(*old(self), *final(self)),
            final(self).class_compiler == old(self).class_compiler,
            final(self).comp_unit.scope_depth == old(self).comp_unit.scope_depth,
            final(self).comp_unit.locals == old(self).comp_unit.locals,
            old(self).comp_unit.upvalues@.len() <= final(self).comp_unit.upvalues@.len(),
            !can_assign ==> final(self).previous == old(self).previous,
            Self::keeps_code(*old(self), *final(self)),
        decreases old(self).measure(), 2int,
    {
        let arg: u8;
        let get_op: OpCode;
        let set_op: OpCode;
        let local = match self.comp_unit.resolve_local(&name) {
            Ok(l) => l,
            Err(e) => {
                self.error(e.message.as_str());
                None
            },
        };
        if let Some(local_index) = local {
            get_op = OpCode::GetLocal;
            set_op = OpCode::SetLocal;
            arg = local_index;
        } else {
            let ghost before = *self;
            let upvalue = match self.comp_unit.resolve_upvalue(&name, Ghost(self.budget())) {
                Ok(u) => u,
                Err(e) => {
                    self.error(e.message.as_str());
                    None
                },
            };
            assert(self.wf());
            if let Some(upvalue_index) = upvalue {
                get_op = OpCode::GetUpvalue;
                set_op = OpCode::SetUpvalue;
                arg = upvalue_index;
            } else {
                let ghost mid = *self;
                arg = self.identifier_constant(name);
                proof {
                    Self::lemma_stable_progress(mid, *self);
                }
                get_op = OpCode::GetGlobal;
                set_op = OpCode::SetGlobal;
            }
        }
        assert((has_byte_operand(get_op) && has_byte_operand(set_op)) || (has_constant_operand(get_op)
            && has_constant_operand(set_op) && arg < self.comp_unit.function.chunk.constants@.len()));
        assert(is_upvalue_op(set_op) ==> arg < self.comp_unit.upvalues@.len());
        let ghost chosen = *self;
        if can_assign && self.match_token(TokenKind::Equal) {
            self.expression();
            let ghost mid = *self;
            self.emit_op_with(set_op, arg);
            proof {
                Self::lemma_stable_progress(mid, *self);
                let k = old(self).consts().len() as int;
                if k < chosen.consts().len() {
                    assert(self.consts()[k] == chosen.consts()[k]);
                }
            }
        } else {
            let ghost mid = *self;
            self.emit_op_with(get_op, arg);
            proof {
                Self::lemma_stable_progress(mid, *self);
            }
        }
    }

    fn and(&mut self, _can_assign: bool)
        requires
            old(self).wf(),
            old(self).started(),
        ensures
            final(self).code().len() >= old(self).code().len() + 4,
            !final(self).had_error ==> {
                &&& final(self).code()[old(self).code().len() as int] == OpCode::JumpIfFalse.spec_u8()
                &&& final(self).code()[old(self).code().len() as int + 3] == OpCode::Pop.spec_u8()
                &&& jump_target(final(self).code(), old(self).code().len() as int) == final(self).code().len()
            },
            Self::progress(*old(self), *final(self)),
            final(self).class_compiler == old(self).class_compiler,
            final(self).comp_unit.scope_depth == old(self).comp_unit.scope_depth,
            final(self).comp_unit.locals == old(self).comp_unit.locals,
            old(self).comp_unit.upvalues@.len() <= final(self).comp_unit.upvalues@.len(),
            Self::keeps_code(*old(self), *final(self)),
            !old(self).had_error ==> (old(self).expression_at(Precedence::And.rank() as int) matches Some(r)
                ==> (r.code.len() + 1 <= 65535 ==> Self::yields(
                *old(self),
                *final(self),
                Compiled { code: logic_code(TokenKind::And, r.code), numbers: r.numbers, rest: r.rest },
            ))),
        decreases old(self).measure(), 4int,
    {
        let end_jump = self.emit_jump(OpCode::JumpIfFalse);
        self.emit_op(OpCode::Pop);
        let ghost s4 = *self;
        self.parse_precedence(Precedence::And);
        let ghost mid = *self;
        self.patch_jump(end_jump);
        proof {
            Self::lemma_stable_code_progress(mid, *self);
            if !old(self).had_error && old(self).expression_at(Precedence::And.rank() as int) is Some {
                let r = old(self).expression_at(Precedence::And.rank() as int)->0;
                if r.code.len() + 1 <= 65535 {
                    reveal(Compiler::yields);
                    assert(s4.expression_at(Precedence::And.rank() as int) == Some(r));
                    lemma_distance_bytes((r.code.len() + 1) as usize);
                    assert(self.code() =~= old(self).code() + logic_code(TokenKind::And, r.code));
                }
            }
        }
    }

    fn or(&mut self, _can_assign: bool)
        requires
            old(self).wf(),
            old(self).started(),
        ensures
            final(self).code().len() >= old(self).code().len() + 7,
            !final(self).had_error ==> {
                &&& final(self).code()[old(self).code().len() as int] == OpCode::JumpIfFalse.spec_u8()
                &&& final(self).code()[old(self).code().len() as int + 3] == OpCode::Jump.spec_u8()
                &&& final(self).code()[old(self).code().len() as int + 6] == OpCode::Pop.spec_u8()
                &&& jump_target(final(self).code(), old(self).code().len() as int + 3) == final(self).code().len()
                &&& jump_target(final(self).code(), old(self).code().len() as int) == old(self).code().len() + 6
            },
            Self::progress(*old(self), *final(self)),
            final(self).class_compiler == old(self).class_compiler,
            final(self).comp_unit.scope_depth == old(self).comp_unit.scope_depth,
            final(self).comp_unit.locals == old(self).comp_unit.locals,
            old(self).comp_unit.upvalues@.len() <= final(self).comp_unit.upvalues@.len(),
            Self::keeps_code(*old(self), *final(self)),
            !old(self).had_error ==> (old(self).expression_at(Precedence::Or.rank() as int) matches Some(r)
                ==> (r.code.len() + 1 <= 65535 ==> Self::yields(
                *old(self),
                *final(self),
                Compiled { code: logic_code(TokenKind::Or, r.code), numbers: r.numbers, rest: r.rest },
            ))),
        decreases old(self).measure(), 4int,
    {
        let else_jump = self.emit_jump(OpCode::JumpIfFalse);
        let end_jump = self.emit_jump(OpCode::Jump);
        self.patch_jump(else_jump);
        self.emit_op(OpCode::Pop);
        let ghost s4 = *self;
        self.parse_precedence(Precedence::Or);
        let ghost mid = *self;
        self.patch_jump(end_jump);
        proof {
            Self::lemma_stable_code_progress(mid, *self);
            if !old(self).had_error && old(self).expression_at(Precedence::Or.rank() as int) is Some {
                let r = old(self).expression_at(Precedence::Or.rank() as int)->0;
                if r.code.len() + 1 <= 65535 {
                    reveal(Compiler::yields);
                    assert(s4.expression_at(Precedence::Or.rank() as int) == Some(r));
                    lemma_distance_bytes(3);
                    lemma_distance_bytes((r.code.len() + 1) as usize);
                    assert(self.code() =~= old(self).code() + logic_code(TokenKind::Or, r.code));
                }
            }
        }
    }

    fn call(&mut self, _can_assign: bool)
        requires
            old(self).wf(),
            old(self).started(),
        ensures
            final(self).code().len() >= old(self).code().len() + 2,
            final(self).code()[final(self).code().len() - 2] == OpCode::Call.spec_u8(),
            Self::progress(*old(self), *final(self)),
            final(self).class_compiler == old(self).class_compiler,
            final(self).comp_unit.scope_depth == old(self).comp_unit.scope_depth,
            final(self).comp_unit.locals == old(self).comp_unit.locals,
            old(self).comp_unit.upvalues@.len() <= final(self).comp_unit.upvalues@.len(),
            Self::keeps_code(*old(self), *final(self)),
            !old(self).had_error ==> (spec_arguments(
                old(self).scanner@.chars,
                old(self).cursor(),
                old(self).consts().len(),
                0,
            ) matches Some(p) ==> final(self).code() == old(self).code() + p.0.code.push(OpCode::Call.spec_u8()).push(
                p.1 as u8,
            )),
        decreases old(self).measure(), 4int,
    {
        let arg_count = self.argument_list();
        let ghost mid = *self;
        self.emit_op_with(OpCode::Call, arg_count);
        proof {
            Self::lemma_stable_progress(mid, *self);
            reveal(Compiler::yields);
            assert(self.code() =~= mid.code().push(OpCode::Call.spec_u8()).push(arg_count));
        }
    }

    /// Compiles the arguments of a call up to the closing parenthesis and returns
    /// how many there are; reports an error, and returns 0, at the 256th.
    #[verifier::rlimit(100)]
    fn argument_list(&mut self) -> (arg_count: u8)
        requires
            old(self).wf(),
            old(self).started(),
        ensures
            old(self).current.kind == TokenKind::RightParen ==> arg_count == 0,
            old(self).current.kind != TokenKind::RightParen && !final(self).had_error ==> arg_count >= 1,
            old(self).current.kind != TokenKind::RightParen && arg_count == 0 ==> final(self).had_error,
            !final(self).had_error ==> final(self).previous.kind == TokenKind::RightParen,
            Self::progress(*old(self), *final(self)),
            final(self).class_compiler == old(self).class_compiler,
            final(self).comp_unit.scope_depth == old(self).comp_unit.scope_depth,
            final(self).comp_unit.locals == old(self).comp_unit.locals,
            old(self).comp_unit.upvalues@.len() <= final(self).comp_unit.upvalues@.len(),
            Self::keeps_code(*old(self), *final(self)),
            !old(self).had_error ==> (spec_arguments(
                old(self).scanner@.chars,
                old(self).cursor(),
                old(self).consts().len(),
                0,
            ) matches Some(p) ==> Self::yields(*old(self), *final(self), p.0) && arg_count == p.1),
        decreases old(self).measure(), 2int,
    {
        let ghost sch = self.scanner@.chars;
        let ghost nk = self.consts().len();
        let ghost total = spec_arguments(sch, self.cursor(), nk, 0);
        let ghost frag = !self.had_error && total is Some;
        let ghost mut acc = Compiled { code: Seq::empty(), numbers: Seq::empty(), rest: self.cursor() };
        let ghost mut cnt: nat = 0;
        proof {
            if frag {
                reveal(Compiler::yields);
                assert(self.code() =~= self.code() + acc.code);
                assert(join_args(acc, total) == total) by {
                    let t = total->0;
                    assert(acc.code + t.0.code =~= t.0.code);
                    assert(acc.numbers + t.0.numbers =~= t.0.numbers);
                }
            }
        }
        let mut arg_count: u8 = 0;
        if !self.check(TokenKind::RightParen) {
            loop
                invariant_except_break
                    frag == (!old(self).had_error && total is Some),
                    total == spec_arguments(sch, old(self).cursor(), nk, 0),
                    sch == old(self).scanner@.chars,
                    nk == old(self).consts().len(),
                    frag ==> Self::yields(*old(self), *self, acc),
                    frag ==> arg_count == cnt,
                    frag ==> join_args(acc, spec_arguments(sch, self.cursor(), nk + acc.numbers.len(), cnt))
                        == total,
                    frag ==> (cnt == 0 ==> self.cursor().kind != TokenKind::RightParen),
                    Self::progress(*old(self), *self),
                    Self::keeps_code(*old(self), *self),
                    self.class_compiler == old(self).class_compiler,
                    self.comp_unit.scope_depth == old(self).comp_unit.scope_depth,
                    self.comp_unit.locals == old(self).comp_unit.locals,
                    old(self).comp_unit.upvalues@.len() <= self.comp_unit.upvalues@.len(),
                ensures
                    Self::progress(*old(self), *self),
                    Self::keeps_code(*old(self), *self),
                    self.class_compiler == old(self).class_compiler,
                    self.comp_unit.scope_depth == old(self).comp_unit.scope_depth,
                    self.comp_unit.locals == old(self).comp_unit.locals,
                    old(self).comp_unit.upvalues@.len() <= self.comp_unit.upvalues@.len(),
                    arg_count >= 1,
                    frag ==> Self::yields(*old(self), *self, acc),
                    frag ==> arg_count == cnt,
                    frag ==> self.cursor().kind == TokenKind::RightParen && moves_on(sch, self.cursor()),
                    frag ==> total == Some(
                        (
                            Compiled { code: acc.code, numbers: acc.numbers, rest: next_cursor(sch, self.cursor()) },
                            cnt,
                        ),
                    ),
                    sch == old(self).scanner@.chars,
                decreases self.measure(),
            {
                let ghost before = *self;
                self.expression();
                let ghost mid = *self;
                if arg_count == 255 {
                    self.error("Can't have more than 255 arguments.");
                    return 0;
                }
                arg_count = arg_count + 1;
                let more = self.match_token(TokenKind::Comma);
                proof {
                    if frag {
                        reveal(Compiler::yields);
                        let c = before.cursor();
                        let k = nk + acc.numbers.len();
                        let e = spec_expression(sch, c, Precedence::Assignment.rank() as int, k)->0;
                        assert(before.consts().len() == k);
                        Self::lemma_yields_trans(*old(self), before, before, mid, acc, e);
                        let code2 = acc.code + e.code;
                        let numbers2 = acc.numbers + e.numbers;
                        if more {
                            let rest = spec_arguments(sch, next_cursor(sch, e.rest), k + e.numbers.len(), cnt + 1);
                            if rest is Some {
                                let r = rest->0;
                                assert(acc.code + (e.code + r.0.code) =~= code2 + r.0.code);
                                assert(acc.numbers + (e.numbers + r.0.numbers) =~= numbers2 + r.0.numbers);
                            }
                            acc = Compiled { code: code2, numbers: numbers2, rest: self.cursor() };
                        } else {
                            acc = Compiled { code: code2, numbers: numbers2, rest: e.rest };
                        }
                        cnt = cnt + 1;
                    }
                }
                if !more {
                    break;
                }
            }
        }
        let ghost m2 = *self;
        self.consume(TokenKind::RightParen, "Expect ')' after arguments.");
        proof {
            if frag {
                reveal(Compiler::yields);
                if cnt == 0 {
                    assert(self.code() =~= old(self).code() + Seq::<u8>::empty());
                }
            }
        }
        arg_count
    }

    /// Compiles a property access, a property assignment, or a method call on the operand.
    fn dot(&mut self, can_assign: bool)
        requires
            old(self).wf(),
            old(self).started(),
        ensures
            final(self).consts().len() > old(self).consts().len(),
            old(self).current.kind == TokenKind::Identifier ==> (final(self).consts()[old(self).consts().len() as int] matches Constant::Str(o) && o.string@ == old(self).current.lexeme@),
            (final(self).code().len() >= old(self).code().len() + 2 && final(self).code()[final(self).code().len() - 2] == OpCode::SetProperty.spec_u8() && final(self).code()[final(self).code().len() - 1] == next_constant_byte(old(self).consts())) || (final(self).code().len() >= old(self).code().len() + 2 && final(self).code()[final(self).code().len() - 2] == OpCode::GetProperty.spec_u8() && final(self).code()[final(self).code().len() - 1]
                == next_constant_byte(old(self).consts())) || (final(self).code().len() >= old(self).code().len() + 3 && final(self).code()[final(self).code().len() - 3] == OpCode::Invoke.spec_u8()
                && final(self).code()[final(self).code().len() - 2] == next_constant_byte(
                old(self).consts(),
            )),
            Self::progress(*old(self), *final(self)),
            final(self).class_compiler == old(self).class_compiler,
            final(self).comp_unit.scope_depth == old(self).comp_unit.scope_depth,
            final(self).comp_unit.locals == old(self).comp_unit.locals,
            old(self).comp_unit.upvalues@.len() <= final(self).comp_unit.upvalues@.len(),
            Self::keeps_code(*old(self), *final(self)),
            old(self).current.kind == TokenKind::Identifier && can_assign && old(self).next_kind()
                == TokenKind::Equal ==> final(self).code().len() >= old(self).code().len() + 2 && final(self).code()[
                final(self).code().len() - 2] == OpCode::SetProperty.spec_u8() && final(self).code()[
                final(self).code().len() - 1] == next_constant_byte(old(self).consts()),
            old(self).current.kind == TokenKind::Identifier && !(can_assign && old(self).next_kind()
                == TokenKind::Equal) && old(self).next_kind() == TokenKind::LeftParen ==> final(self).code().len()
                >= old(self).code().len() + 3 && final(self).code()[final(self).code().len() - 3]
                == OpCode::Invoke.spec_u8() && final(self).code()[final(self).code().len() - 2]
                == next_constant_byte(old(self).consts()),
            old(self).current.kind == TokenKind::Identifier && !(can_assign && old(self).next_kind()
                == TokenKind::Equal) && old(self).next_kind() != TokenKind::LeftParen && old(self).next_kind()
                != TokenKind::Error ==> final(self).code() == old(self).code().push(OpCode::GetProperty.spec_u8()).push(
                next_constant_byte(old(self).consts()),
            ),
            !old(self).had_error && old(self).current.kind == TokenKind::Identifier && !(can_assign && old(
                self,
            ).next_kind() == TokenKind::Equal) && old(self).next_kind() == TokenKind::LeftParen && old(self).consts().len()
                <= 255 ==> (spec_arguments(
                old(self).scanner@.chars,
                next_cursor(old(self).scanner@.chars, next_cursor(old(self).scanner@.chars, old(self).cursor())),
                old(self).consts().len() + 1,
                0,
            ) matches Some(p) ==> final(self).code() == old(self).code() + p.0.code.push(OpCode::Invoke.spec_u8()).push(
                old(self).consts().len() as u8,
            ).push(p.1 as u8)),
        decreases old(self).measure(), 4int,
    {
        self.consume(TokenKind::Identifier, "Expect property name after '.'.");
        let prop = self.previous.lexeme.clone();
        let ghost mid = *self;
        let name = self.identifier_constant(prop);
        proof {
            Self::lemma_stable_progress(mid, *self);
        }
        if can_assign && self.match_token(TokenKind::Equal) {
            self.expression();
            let ghost mid2 = *self;
            self.emit_op_with(OpCode::SetProperty, name);
            proof {
                Self::lemma_stable_progress(mid2, *self);
            }
        } else if self.match_token(TokenKind::LeftParen) {
            let ghost q1 = *self;
            let arg_count = self.argument_list();
            let ghost mid2 = *self;
            self.emit_invoke(OpCode::Invoke, name, arg_count);
            proof {
                Self::lemma_stable_progress(mid2, *self);
                reveal(Compiler::yields);
                let sch = old(self).scanner@.chars;
                let c2 = next_cursor(sch, next_cursor(sch, old(self).cursor()));
                if !old(self).had_error && old(self).current.kind == TokenKind::Identifier && old(self).next_kind()
                    == TokenKind::LeftParen && old(self).consts().len() <= 255 && spec_arguments(
                    sch,
                    c2,
                    old(self).consts().len() + 1,
                    0,
                ) is Some {
                    let p = spec_arguments(sch, c2, old(self).consts().len() + 1, 0)->0;
                    assert(c2.kind != TokenKind::Error);
                    assert(q1.cursor() == c2);
                    assert(self.code() =~= old(self).code() + p.0.code.push(OpCode::Invoke.spec_u8()).push(
                        old(self).consts().len() as u8,
                    ).push(p.1 as u8));
                }
            }
        } else {
            let ghost mid2 = *self;
            self.emit_op_with(OpCode::GetProperty, name);
            proof {
                Self::lemma_stable_progress(mid2, *self);
            }
        }
    }

    fn this(&mut self, _can_assign: bool)
        requires
            old(self).wf(),
            old(self).started(),
        ensures
            old(self).class_compiler is None ==> final(self).had_error && final(self).code() == old(self).code(),
            old(self).class_compiler is Some ==> final(self).code().len() == old(self).code().len() + 2
                && is_get_op(final(self).code()[old(self).code().len() as int]),
            Self::progress(*old(self), *final(self)),
            final(self).class_compiler == old(self).class_compiler,
            final(self).comp_unit.scope_depth == old(self).comp_unit.scope_depth,
            final(self).comp_unit.locals == old(self).comp_unit.locals,
            old(self).comp_unit.upvalues@.len() <= final(self).comp_unit.upvalues@.len(),
            Self::keeps_code(*old(self), *final(self)),
        decreases old(self).measure(), 4int,
    {
        if self.class_compiler.is_none() {
            self.error("Cannot use 'this' outside of a class.");
            return;
        }
        self.variable(false)
    }

    /// Compiles `super.name`, or a call `super.name(...)`.
    fn super_(&mut self, _can_assign: bool)
        requires
            old(self).wf(),
            old(self).started(),
        ensures
            !has_super(old(self).class_compiler) ==> final(self).had_error && final(self).code() == old(self).code(),
            has_super(old(self).class_compiler) ==> (final(self).code().len() >= old(self).code().len() + 2 && final(self).code()[final(self).code().len() - 2] == OpCode::GetSuper.spec_u8() && final(self).code()[final(self).code().len() - 1]
                == next_constant_byte(old(self).consts())) || (final(self).code().len() >= old(self).code().len() + 3 && final(self).code()[final(self).code().len() - 3] == OpCode::SuperInvoke.spec_u8()
                && final(self).code()[final(self).code().len() - 2] == next_constant_byte(
                old(self).consts(),
            )),
            Self::progress(*old(self), *final(self)),
            final(self).class_compiler == old(self).class_compiler,
            final(self).comp_unit.scope_depth == old(self).comp_unit.scope_depth,
            final(self).comp_unit.locals == old(self).comp_unit.locals,
            old(self).comp_unit.upvalues@.len() <= final(self).comp_unit.upvalues@.len(),
            Self::keeps_code(*old(self), *final(self)),
        decreases old(self).measure(), 4int,
    {
        let has_superclass = match &self.class_compiler {
            Some(cc) => cc.has_superclass,
            None => false,
        };
        if self.class_compiler.is_none() {
            return self.error("Cannot use 'super' outside of a class.");
        } else if !has_superclass {
            return self.error("Cannot use 'super' in a class with no superclass.");
        }
        self.consume(TokenKind::Dot, "Expect '.' after 'super'.");
        self.consume(TokenKind::Identifier, "Expect superclass method name.");
        let method = self.previous.lexeme.clone();
        let ghost mid = *self;
        let name = self.identifier_constant(method);
        proof {
            Self::lemma_stable_progress(mid, *self);
        }
        self.named_variable("this".to_owned(), false);
        if self.match_token(TokenKind::LeftParen) {
            let arg_count = self.argument_list();
            self.named_variable("super".to_owned(), false);
            let ghost mid2 = *self;
            self.emit_invoke(OpCode::SuperInvoke, name, arg_count);
            proof {
                Self::lemma_stable_progress(mid2, *self);
            }
        } else {
            self.named_variable("super".to_owned(), false);
            let ghost mid2 = *self;
            self.emit_op_with(OpCode::GetSuper, name);
            proof {
                Self::lemma_stable_progress(mid2, *self);
            }
        }
    }


    // -- Statements and declarations ----------------------------------------

    /// Compiles a declaration; after an error, skips to the next statement.
    fn declaration(&mut self)
        requires
            old(self).wf(),
            old(self).started(),
        ensures
            Self::progress(*old(self), *final(self)),
            old(self).current.kind != TokenKind::Eof ==> final(self).measure() < old(self).measure(),
            !old(self).had_error ==> (spec_statement(old(self).scanner@.chars, old(self).cursor(), old(self).consts().len())
                matches Some(r) ==> Self::yields(*old(self), *final(self), r)),
        decreases old(self).measure(), 20int,
    {
        if self.match_token(TokenKind::Class) {
            self.class_declaration()
        } else if self.match_token(TokenKind::Fun) {
            self.fun_declaration()
        } else if self.match_token(TokenKind::Var) {
            self.var_declaration()
        } else {
            self.statement()
        }
        proof {
            if !old(self).had_error && spec_statement(
                old(self).scanner@.chars,
                old(self).cursor(),
                old(self).consts().len(),
            ) is Some {
                reveal(Compiler::yields);
                assert(!self.had_error);
            }
        }
        if self.panic_mode {
            self.synchronize();
        }
    }

    fn statement(&mut self)
        requires
            old(self).wf(),
            old(self).started(),
        ensures
            Self::progress(*old(self), *final(self)),
            old(self).current.kind != TokenKind::Eof ==> final(self).measure() < old(self).measure(),
            !old(self).had_error ==> (spec_statement(old(self).scanner@.chars, old(self).cursor(), old(self).consts().len())
                matches Some(r) ==> Self::yields(*old(self), *final(self), r)),
        decreases old(self).measure(), 10int,
    {
        let ghost a = *self;
        if self.match_token(TokenKind::Print) {
            let ghost s1 = *self;
            self.print_statement();
            proof {
                if !a.had_error && spec_statement(a.scanner@.chars, a.cursor(), a.consts().len()) is Some {
                    let r = spec_statement(a.scanner@.chars, a.cursor(), a.consts().len())->0;
                    assert(s1.cursor() == next_cursor(a.scanner@.chars, a.cursor()));
                    Self::lemma_yields_from(a, s1, *self, r);
                }
            }
        } else if self.match_token(TokenKind::If) {
            self.if_statement()
        } else if self.match_token(TokenKind::For) {
            self.for_statement()
        } else if self.match_token(TokenKind::Return) {
            self.return_statement()
        } else if self.match_token(TokenKind::While) {
            self.while_statement()
        } else if self.match_token(TokenKind::LeftBrace) {
            self.begin_scope();
            let ghost mid = *self;
            self.block();
            self.end_scope();
        } else {
            self.expression_statement()
        }
    }

    fn print_statement(&mut self)
        requires
            old(self).wf(),
            old(self).started(),
        ensures
            final(self).code().len() > old(self).code().len(),
            final(self).code().last() == OpCode::Print.spec_u8(),
            !final(self).had_error ==> final(self).previous.kind == TokenKind::Semicolon,
            Self::progress(*old(self), *final(self)),
            !old(self).had_error ==> (old(self).expression_at(Precedence::Assignment.rank() as int) matches Some(
                e,
            ) ==> (ended_by(old(self).scanner@.chars, e, OpCode::Print) matches Some(r) ==> Self::yields(
                *old(self),
                *final(self),
                r,
            ))),
        decreases old(self).measure(), 2int,
    {
        let ghost a = *self;
        self.expression();
        let ghost m0 = *self;
        self.consume(TokenKind::Semicolon, "Expect ';' after value.");
        let ghost mid = *self;
        self.emit_op(OpCode::Print);
        proof {
            Self::lemma_stable_progress(mid, *self);
            reveal(Compiler::yields);
            if !a.had_error && a.expression_at(Precedence::Assignment.rank() as int) is Some {
                let e = a.expression_at(Precedence::Assignment.rank() as int)->0;
                if ended_by(a.scanner@.chars, e, OpCode::Print) is Some {
                    assert(m0.next_token() == spec_scan(a.scanner@.chars, e.rest.pos, e.rest.line));
                    assert(self.code() =~= a.code() + e.code.push(OpCode::Print.spec_u8()));
                }
            }
        }
    }

    fn expression_statement(&mut self)
        requires
            old(self).wf(),
            old(self).started(),
        ensures
            final(self).code().len() > old(self).code().len(),
            final(self).code().last() == OpCode::Pop.spec_u8(),
            !final(self).had_error ==> final(self).previous.kind == TokenKind::Semicolon,
            Self::progress(*old(self), *final(self)),
            old(self).current.kind != TokenKind::Eof ==> final(self).measure() < old(self).measure(),
            !old(self).had_error ==> (old(self).expression_at(Precedence::Assignment.rank() as int) matches Some(
                e,
            ) ==> (ended_by(old(self).scanner@.chars, e, OpCode::Pop) matches Some(r) ==> Self::yields(
                *old(self),
                *final(self),
                r,
            ))),
        decreases old(self).measure(), 2int,
    {
        let ghost a = *self;
        self.expression();
        let ghost m0 = *self;
        self.consume(TokenKind::Semicolon, "Expect ';' after value.");
        let ghost mid = *self;
        self.emit_op(OpCode::Pop);
        proof {
            Self::lemma_stable_progress(mid, *self);
            reveal(Compiler::yields);
            if !a.had_error && a.expression_at(Precedence::Assignment.rank() as int) is Some {
                let e = a.expression_at(Precedence::Assignment.rank() as int)->0;
                if ended_by(a.scanner@.chars, e, OpCode::Pop) is Some {
                    assert(m0.next_token() == spec_scan(a.scanner@.chars, e.rest.pos, e.rest.line));
                    assert(self.code() =~= a.code() + e.code.push(OpCode::Pop.spec_u8()));
                }
            }
        }
    }

    /// Leaves error recovery: skips tokens up to a statement boundary.
    fn synchronize(&mut self)
        requires
            old(self).wf(),
            old(self).started(),
        ensures
            final(self).current.kind == TokenKind::Eof || final(self).previous.kind == TokenKind::Semicolon
                || starts_statement(final(self).current.kind),
            Self::progress(*old(self), *final(self)),
            final(self).comp_unit == old(self).comp_unit,
    {
        self.panic_mode = false;
        while self.current.kind != TokenKind::Eof
            invariant
                Self::progress(*old(self), *self),
                self.comp_unit == old(self).comp_unit,
            decreases self.measure(),
        {
            if self.previous.kind == TokenKind::Semicolon {
                return;
            }
            match self.current.kind {
                TokenKind::Class | TokenKind::Fun | TokenKind::Var | TokenKind::For
                | TokenKind::If | TokenKind::While | TokenKind::Print | TokenKind::Return => {
                    return;
                },
                _ => {},
            }
            self.advance();
        }
    }

    fn var_declaration(&mut self)
        requires
            old(self).wf(),
            old(self).started(),
        ensures
            !final(self).had_error ==> final(self).previous.kind == TokenKind::Semicolon,
            old(self).comp_unit.scope_depth <= 0 ==> final(self).code().len() >= old(self).code().len() + 2
                && final(self).code()[final(self).code().len() - 2] == OpCode::DefineGlobal.spec_u8()
                && final(self).code()[final(self).code().len() - 1] == next_constant_byte(old(self).consts()),
            old(self).comp_unit.scope_depth > 0 && !final(self).had_error ==> final(self).comp_unit.locals@
                == old(self).comp_unit.locals@.push(
                Local { name: old(self).current, depth: old(self).comp_unit.scope_depth, is_captured: false },
            ),
            Self::progress(*old(self), *final(self)),
            old(self).current.kind == TokenKind::Identifier && old(self).next_kind() != TokenKind::Equal
                && old(self).next_kind() != TokenKind::Error ==> {
                &&& old(self).comp_unit.scope_depth <= 0 ==> final(self).code() == old(self).code().push(
                    OpCode::Nil.spec_u8(),
                ).push(OpCode::DefineGlobal.spec_u8()).push(next_constant_byte(old(self).consts()))
                &&& old(self).comp_unit.scope_depth > 0 ==> final(self).code() == old(self).code().push(
                    OpCode::Nil.spec_u8(),
                )
            },
            !old(self).had_error && old(self).current.kind == TokenKind::Identifier && old(self).next_kind()
                == TokenKind::Equal && old(self).comp_unit.scope_depth == 0 && old(self).consts().len() <= 255
                ==> (spec_expression(
                old(self).scanner@.chars,
                next_cursor(old(self).scanner@.chars, next_cursor(old(self).scanner@.chars, old(self).cursor())),
                Precedence::Assignment.rank() as int,
                old(self).consts().len() + 1,
            ) matches Some(e) ==> (e.rest.kind == TokenKind::Semicolon && moves_on(old(self).scanner@.chars, e.rest)
                ==> final(self).code() == old(self).code() + e.code.push(OpCode::DefineGlobal.spec_u8()).push(
                old(self).consts().len() as u8,
            ))),
        decreases old(self).measure(), 3int,
    {
        let ghost a = *self;
        let global = self.parse_variable("Expect variable name.");
        let ghost p1 = *self;
        if self.match_token(TokenKind::Equal) {
            let ghost p2 = *self;
            self.expression();
            let ghost p3 = *self;
            proof {
                let sch = a.scanner@.chars;
                if !a.had_error && a.current.kind == TokenKind::Identifier && a.next_kind() == TokenKind::Equal
                    && a.comp_unit.scope_depth == 0 && a.consts().len() <= 255 && spec_expression(
                    sch,
                    next_cursor(sch, next_cursor(sch, a.cursor())),
                    Precedence::Assignment.rank() as int,
                    a.consts().len() + 1,
                ) is Some {
                    assert(next_cursor(sch, next_cursor(sch, a.cursor())).kind != TokenKind::Error);
                    assert(p1.cursor() == next_cursor(sch, a.cursor()));
                    assert(p2.cursor() == next_cursor(sch, next_cursor(sch, a.cursor())));
                    assert(p2.expression_at(Precedence::Assignment.rank() as int) == spec_expression(
                        sch,
                        next_cursor(sch, next_cursor(sch, a.cursor())),
                        Precedence::Assignment.rank() as int,
                        a.consts().len() + 1,
                    ));
                    reveal(Compiler::yields);
                }
            }
        } else {
            let ghost mid = *self;
            self.emit_op(OpCode::Nil);
            proof {
                Self::lemma_stable_progress(mid, *self);
            }
        }
        self.consume(TokenKind::Semicolon, "Expect ';' after variable declaration.");
        let ghost mid = *self;
        self.define_variable(global);
        proof {
            Self::lemma_stable_progress(mid, *self);
            reveal(Compiler::yields);
            let sch = a.scanner@.chars;
            let c2 = next_cursor(sch, next_cursor(sch, a.cursor()));
            if !a.had_error && a.current.kind == TokenKind::Identifier && a.next_kind() == TokenKind::Equal
                && a.comp_unit.scope_depth == 0 && a.consts().len() <= 255 && spec_expression(
                sch,
                c2,
                Precedence::Assignment.rank() as int,
                a.consts().len() + 1,
            ) is Some {
                let e = spec_expression(sch, c2, Precedence::Assignment.rank() as int, a.consts().len() + 1)->0;
                if e.rest.kind == TokenKind::Semicolon && moves_on(sch, e.rest) {
                    assert(self.code() =~= a.code() + e.code.push(OpCode::DefineGlobal.spec_u8()).push(
                        a.consts().len() as u8,
                    ));
                }
            }
        }
    }

    /// Compiles declarations up to the closing brace of a block.
    fn block(&mut self)
        requires
            old(self).wf(),
            old(self).started(),
        ensures
            !final(self).had_error ==> final(self).previous.kind == TokenKind::RightBrace,
            Self::progress(*old(self), *final(self)),
            old(self).current.kind != TokenKind::Eof && old(self).current.kind
                != TokenKind::RightBrace ==> final(self).measure() < old(self).measure(),
        decreases old(self).measure(), 21int,
    {
        while !self.check(TokenKind::RightBrace) && !self.check(TokenKind::Eof)
            invariant
                Self::progress(*old(self), *self),
                self.measure() < old(self).measure() || self.current.kind == old(self).current.kind,
            decreases self.measure(),
        {
            let ghost before = *self;
            self.declaration();
            proof {
                Self::lemma_progress_trans(*old(self), before, *self);
            }
        }
        self.consume(TokenKind::RightBrace, "Expect '}' after block.")
    }

    #[verifier::rlimit(60)]
    fn if_statement(&mut self)
        requires
            old(self).wf(),
            old(self).started(),
        ensures
            final(self).code().len() >= old(self).code().len() + 8,
            !final(self).had_error ==> exists|p: int, q: int|
                #![trigger final(self).code()[p], final(self).code()[q]]
                old(self).code().len() <= p && p + 4 <= q && q + 4 <= final(self).code().len()
                    && final(self).code()[p] == OpCode::JumpIfFalse.spec_u8() && final(self).code()[p + 3]
                    == OpCode::Pop.spec_u8() && final(self).code()[q] == OpCode::Jump.spec_u8() && final(
                self).code()[q + 3] == OpCode::Pop.spec_u8() && jump_target(final(self).code(), q) == final(
                self).code().len(),
            Self::progress(*old(self), *final(self)),
        decreases old(self).measure(), 11int,
    {
        self.consume(TokenKind::LeftParen, "Expect '(' after 'if'.");
        self.expression();
        self.consume(TokenKind::RightParen, "Expect ')' after condition.");
        let then_jump = self.emit_jump(OpCode::JumpIfFalse);
        let ghost s1 = *self;
        self.emit_op(OpCode::Pop);
        let ghost s2 = *self;
        self.statement();
        let else_jump = self.emit_jump(OpCode::Jump);
        let ghost s4 = *self;
        self.patch_jump(then_jump);
        let ghost s5 = *self;
        self.emit_op(OpCode::Pop);
        let ghost s6 = *self;
        if self.match_token(TokenKind::Else) {
            self.statement();
        }
        let ghost s7 = *self;
        self.patch_jump(else_jump);
        proof {
            if !self.had_error {
                let p = then_jump - 1;
                let q = else_jump - 1;
                assert(reaches(s1.code(), s1.consts(), 0, s1.code().len() as int));
                assert(reaches(s2.code(), s2.consts(), 0, p));
                assert(reaches(s2.code(), s2.consts(), 0, p + 3));
                assert(s2.code()[p] == OpCode::JumpIfFalse.spec_u8());
                assert(s2.code()[p + 3] == OpCode::Pop.spec_u8());
                assert(reaches(s5.code(), s5.consts(), 0, s5.code().len() as int));
                assert(reaches(s6.code(), s6.consts(), 0, q));
                assert(reaches(s6.code(), s6.consts(), 0, q + 3));
                assert(s6.code()[q] == OpCode::Jump.spec_u8());
                assert(s6.code()[q + 3] == OpCode::Pop.spec_u8());
                assert(s7.code()[p] == OpCode::JumpIfFalse.spec_u8());
                assert(s7.code()[p + 3] == OpCode::Pop.spec_u8());
                assert(s7.code()[q] == OpCode::Jump.spec_u8());
                assert(s7.code()[q + 3] == OpCode::Pop.spec_u8());
                assert(self.code()[p] == OpCode::JumpIfFalse.spec_u8());
                assert(self.code()[p + 3] == OpCode::Pop.spec_u8());
                assert(self.code()[q] == OpCode::Jump.spec_u8());
                assert(self.code()[q + 3] == OpCode::Pop.spec_u8());
            }
        }
    }

    #[verifier::rlimit(60)]
    fn while_statement(&mut self)
        requires
            old(self).wf(),
            old(self).started(),
        ensures
            final(self).code().len() >= old(self).code().len() + 8,
            !final(self).had_error ==> {
                &&& final(self).code()[final(self).code().len() - 4] == OpCode::Loop.spec_u8()
                &&& jump_target(final(self).code(), final(self).code().len() - 4) == old(self).code().len()
                &&& final(self).code().last() == OpCode::Pop.spec_u8()
            },
            Self::progress(*old(self), *final(self)),
        decreases old(self).measure(), 11int,
    {
        let loop_start = self.comp_unit.function.chunk.code.len();
        self.consume(TokenKind::LeftParen, "Expect '(' after 'while'.");
        self.expression();
        self.consume(TokenKind::RightParen, "Expect ')' after condition.");
        let exit_jump = self.emit_jump(OpCode::JumpIfFalse);
        self.emit_op(OpCode::Pop);
        self.statement();
        self.emit_loop(loop_start);
        self.patch_jump(exit_jump);
        self.emit_op(OpCode::Pop);
    }

    fn for_statement(&mut self)
        requires
            old(self).wf(),
            old(self).started(),
            abs(old(self).comp_unit.scope_depth + 1) <= old(self).budget(),
        ensures
            !final(self).had_error ==> exists|p: int|
                #![trigger final(self).code()[p]]
                old(self).code().len() <= p && p + 3 <= final(self).code().len() && final(self).code()[p]
                    == OpCode::Loop.spec_u8() && old(self).code().len() <= jump_target(final(self).code(), p)
                    <= p,
            Self::progress(*old(self), *final(self)),
        decreases old(self).measure(), 13int,
    {
        self.begin_scope();
        let ghost b1 = *self;
        self.for_clauses_and_body();
        let ghost b2 = *self;
        assert(abs(b2.comp_unit.scope_depth - 1) <= b2.budget());
        self.end_scope();
        proof {
            if !self.had_error {
                let p = choose|p: int|
                    #![trigger b2.code()[p]]
                    b1.code().len() <= p && b2.code()[p] == OpCode::Loop.spec_u8() && b1.code().len()
                        <= jump_target(b2.code(), p) <= p && (p + 3 == b2.code().len() || (p + 4
                        == b2.code().len() && b2.code().last() == OpCode::Pop.spec_u8()));
                assert(self.code()[p] == b2.code()[p]);
                assert(self.code()[p + 1] == b2.code()[p + 1]);
                assert(self.code()[p + 2] == b2.code()[p + 2]);
                assert(jump_target(self.code(), p) == jump_target(b2.code(), p));
            }
        }
    }

    /// The part of a `for` statement inside its scope: the clauses and the body.
    #[verifier::rlimit(100)]
    fn for_clauses_and_body(&mut self)
        requires
            old(self).wf(),
            old(self).started(),
        ensures
            !final(self).had_error ==> exists|p: int|
                #![trigger final(self).code()[p]]
                old(self).code().len() <= p && final(self).code()[p] == OpCode::Loop.spec_u8() && old(
                self).code().len() <= jump_target(final(self).code(), p) <= p && (p + 3 == final(
                self).code().len() || (p + 4 == final(self).code().len() && final(self).code().last()
                    == OpCode::Pop.spec_u8())),
            Self::progress(*old(self), *final(self)),
        decreases old(self).measure(), 12int,
    {
        self.consume(TokenKind::LeftParen, "Expect '(' after 'for'.");
        // Initializer:
        if self.match_token(TokenKind::Semicolon) {
            // No initializer.
        } else if self.match_token(TokenKind::Var) {
            self.var_declaration();
        } else {
            self.expression_statement();
        }
        let ghost c1 = *self;
        // Condition:
        let mut loop_start = self.comp_unit.function.chunk.code.len();
        assert(old(self).code().len() <= loop_start);
        let exit_jump = self.for_condition();
        let ghost c2 = *self;
        proof {
            Self::lemma_progress_code_trans(c1, c2, c2);
        }
        // Increment:
        loop_start = self.for_increment(loop_start);
        let ghost c3 = *self;
        // Body:
        self.for_loop_tail(loop_start, exit_jump);
        proof {
            Self::lemma_progress_code_trans(*old(self), c3, *self);
        }
    }

    /// The condition clause of a `for` loop, where there is one, and the `;` after it.
    /// With a condition, its code is followed by a `JumpIfFalse` out of the loop,
    /// whose distance is filled in later, and a `Pop` of the condition; returns
    /// where that distance is.
    fn for_condition(&mut self) -> (exit_jump: Option<usize>)
        requires
            old(self).wf(),
            old(self).started(),
        ensures
            Self::progress_code(*old(self), *final(self)),
            final(self).comp_unit.scope_depth == old(self).comp_unit.scope_depth,
            old(self).current.kind == TokenKind::Semicolon ==> (exit_jump is None && final(self).code()
                == old(self).code() && (!final(self).had_error ==> final(self).comp_unit.pending_jumps@
                =~= old(self).comp_unit.pending_jumps@)),
            old(self).current.kind != TokenKind::Semicolon ==> (exit_jump matches Some(e) && e + 3
                == final(self).code().len() && old(self).code().len() <= e - 1 && final(self).code()[e - 1]
                == OpCode::JumpIfFalse.spec_u8() && final(self).code().last() == OpCode::Pop.spec_u8()),
            exit_jump matches Some(e) ==> e + 2 <= final(self).code().len() && (!final(self).had_error
                ==> jump_pending(final(self).comp_unit.function.chunk, e as int)
                && final(self).comp_unit.pending_jumps@ =~= old(self).comp_unit.pending_jumps@.insert(e - 1)),
        decreases old(self).measure(), 10int,
    {
        if self.match_token(TokenKind::Semicolon) {
            return None;
        }
        self.expression();
        self.consume(TokenKind::Semicolon, "Expect ';'.");
        // Jump out of the loop if the condition is false.
        let exit_jump = self.emit_jump(OpCode::JumpIfFalse);
        let ghost mid = *self;
        self.emit_op(OpCode::Pop);
        proof {
            Self::lemma_stable_progress(mid, *self);
            lemma_opcode_roundtrip(OpCode::JumpIfFalse);
        }
        Some(exit_jump)
    }

    /// The increment clause of a `for` loop, where there is one, and the `)` after
    /// the clauses. Returns where the jump back at the end of the body goes: to the
    /// increment, which is jumped over on the way into the body and itself jumps
    /// back to `cond_start`; or, without an increment, to `cond_start`.
    #[verifier::rlimit(100)]
    fn for_increment(&mut self, cond_start: usize) -> (loop_start: usize)
        requires
            old(self).wf(),
            old(self).started(),
            cond_start <= old(self).code().len(),
            !old(self).had_error ==> reaches(old(self).code(), old(self).consts(), 0, cond_start as int),
        ensures
            Self::progress_code(*old(self), *final(self)),
            !final(self).had_error ==> final(self).comp_unit.pending_jumps@ =~= old(self).comp_unit.pending_jumps@,
            loop_start <= final(self).code().len(),
            !final(self).had_error ==> reaches(final(self).code(), final(self).consts(), 0, loop_start as int),
            old(self).current.kind == TokenKind::RightParen ==> loop_start == cond_start
                && final(self).code() == old(self).code(),
            old(self).current.kind != TokenKind::RightParen ==> loop_start == old(self).code().len() + 3,
            old(self).current.kind != TokenKind::RightParen && !final(self).had_error ==> {
                &&& final(self).code()[old(self).code().len() as int] == OpCode::Jump.spec_u8()
                &&& jump_target(final(self).code(), old(self).code().len() as int) == final(self).code().len()
                &&& final(self).code()[final(self).code().len() - 3] == OpCode::Loop.spec_u8()
                &&& jump_target(final(self).code(), final(self).code().len() - 3) == cond_start
            },
            final(self).comp_unit.scope_depth == old(self).comp_unit.scope_depth,
        decreases old(self).measure(), 10int,
    {
        if self.match_token(TokenKind::RightParen) {
            return cond_start;
        }
        let ghost a = *self;
        let body_jump = self.emit_jump(OpCode::Jump);
        let ghost j1 = *self;
        let increment_start = self.comp_unit.function.chunk.code.len();
        self.expression();
        self.emit_op(OpCode::Pop);
        self.consume(TokenKind::RightParen, "Expect ')' after for clauses.");
        let ghost l0 = *self;
        self.emit_loop(cond_start);
        let ghost mid = *self;
        self.patch_jump(body_jump);
        proof {
            Self::lemma_stable_code_progress(mid, *self);
            if !self.had_error {
                let o = a.code().len() as int;
                assert(reaches(j1.code(), j1.consts(), 0, o));
                assert(reaches(j1.code(), j1.consts(), 0, increment_start as int));
                lemma_kept_at(j1.comp_unit.function.chunk, l0.comp_unit.function.chunk, o);
                assert(l0.code()[o] == OpCode::Jump.spec_u8());
                assert(mid.code()[o] == OpCode::Jump.spec_u8());
                assert(self.code()[o] == OpCode::Jump.spec_u8());
                let q = l0.code().len() as int;
                assert(self.code()[q] == mid.code()[q]);
                assert(self.code()[q + 1] == mid.code()[q + 1]);
                assert(self.code()[q + 2] == mid.code()[q + 2]);
                assert(jump_target(self.code(), q) == cond_start);
            }
        }
        increment_start
    }

    /// The rest of a `for` loop once its clauses are compiled: the body, the jump
    /// back to `loop_start`, and, where there is a condition, where its exit jump
    /// lands and the pop of the condition.
    #[verifier::rlimit(100)]
    fn for_loop_tail(&mut self, loop_start: usize, exit_jump: Option<usize>)
        requires
            old(self).wf(),
            old(self).started(),
            loop_start <= old(self).code().len(),
            !old(self).had_error ==> reaches(old(self).code(), old(self).consts(), 0, loop_start as int),
            exit_jump matches Some(e) ==> e + 2 <= old(self).code().len() && (!old(self).had_error
                ==> jump_pending(old(self).comp_unit.function.chunk, e as int)),
        ensures
            Self::progress_code(*old(self), *final(self)),
            !final(self).had_error ==> final(self).comp_unit.pending_jumps@ =~= (match exit_jump {
                Some(e) => old(self).comp_unit.pending_jumps@.remove(e - 1),
                None => old(self).comp_unit.pending_jumps@,
            }),
            !final(self).had_error ==> exists|p: int|
                #![trigger final(self).code()[p]]
                old(self).code().len() <= p && final(self).code()[p] == OpCode::Loop.spec_u8()
                    && jump_target(final(self).code(), p) == loop_start && (p + 3 == final(
                self).code().len() || (p + 4 == final(self).code().len() && final(self).code().last()
                    == OpCode::Pop.spec_u8())),
            !final(self).had_error ==> (exit_jump matches Some(e) ==> jump_target(final(self).code(), e - 1)
                == final(self).code().len() - 1 && final(self).code().last() == OpCode::Pop.spec_u8()),
        decreases old(self).measure(), 11int,
    {
        self.statement();
        let ghost c4 = *self;
        self.emit_loop(loop_start);
        let ghost c5 = *self;
        proof {
            Self::lemma_stable_progress(c4, *self);
        }
        if let Some(exit_jump) = exit_jump {
            let ghost mid = *self;
            self.patch_jump(exit_jump);
            let ghost patched = *self;
            self.emit_op(OpCode::Pop);  // Condition.
            proof {
                if !self.had_error {
                    let e = exit_jump as int;
                    assert(self.code()[e - 1] == patched.code()[e - 1]);
                    assert(self.code()[e] == patched.code()[e]);
                    assert(self.code()[e + 1] == patched.code()[e + 1]);
                    assert(jump_target(self.code(), e - 1) == jump_target(patched.code(), e - 1));
                }
                Self::lemma_stable_code_progress(mid, *self);
                let p = c4.code().len() as int;
                assert(patched.code()[p] == c5.code()[p]);
                assert(patched.code()[p + 1] == c5.code()[p + 1]);
                assert(patched.code()[p + 2] == c5.code()[p + 2]);
                assert(self.code()[p] == c5.code()[p]);
                assert(self.code()[p + 1] == c5.code()[p + 1]);
                assert(self.code()[p + 2] == c5.code()[p + 2]);
            }
        }
        proof {
            if !self.had_error {
                let p = c4.code().len() as int;
                assert(self.code()[p] == OpCode::Loop.spec_u8());
                assert(jump_target(self.code(), p) == loop_start);
            }
        }
    }

    fn return_statement(&mut self)
        requires
            old(self).wf(),
            old(self).started(),
        ensures
            old(self).comp_unit.function_type == FunctionType::Script ==> final(self).had_error,
            old(self).current.kind == TokenKind::Semicolon && old(self).comp_unit.function_type
                != FunctionType::Initializer ==> final(self).code() == old(self).code().push(
                OpCode::Nil.spec_u8(),
            ).push(OpCode::Return.spec_u8()),
            old(self).current.kind == TokenKind::Semicolon && old(self).comp_unit.function_type
                == FunctionType::Initializer ==> final(self).code() == old(self).code().push(
                OpCode::GetLocal.spec_u8(),
            ).push(0u8).push(OpCode::Return.spec_u8()),
            old(self).current.kind != TokenKind::Semicolon ==> final(self).code().len() > old(self).code().len()
                && final(self).code().last() == OpCode::Return.spec_u8(),
            old(self).current.kind != TokenKind::Semicolon && old(self).comp_unit.function_type
                == FunctionType::Initializer ==> final(self).had_error,
            Self::progress(*old(self), *final(self)),
        decreases old(self).measure(), 2int,
    {
        if self.comp_unit.function_type == FunctionType::Script {
            self.error("Cannot return from top-level code.");
        }
        if self.match_token(TokenKind::Semicolon) {
            self.emit_return();
        } else {
            if self.comp_unit.function_type == FunctionType::Initializer {
                self.error("Can't return a value from an initializer.");
            }
            self.expression();
            self.consume(TokenKind::Semicolon, "Expect ';' after return value.");
            self.emit_op(OpCode::Return);
        }
    }


    fn fun_declaration(&mut self)
        requires
            old(self).wf(),
            old(self).started(),
        ensures
            final(self).code().len() >= old(self).code().len() + 2,
            final(self).code()[old(self).code().len() as int] == OpCode::Closure.spec_u8(),
            old(self).comp_unit.scope_depth <= 0 ==> final(self).code()[final(self).code().len() - 2]
                == OpCode::DefineGlobal.spec_u8() && final(self).code()[final(self).code().len() - 1]
                == next_constant_byte(old(self).consts()),
            old(self).current.kind == TokenKind::Identifier ==> (final(self).consts()[old(self).consts().len()
                + (if old(self).comp_unit.scope_depth <= 0 {
                1int
            } else {
                0int
            })] matches Constant::Function(f) && f.name@ == old(self).current.lexeme@),
            Self::progress(*old(self), *final(self)),
        decreases old(self).measure(), 23int,
    {
        let global = self.parse_variable("Expect function name.");
        let ghost mid = *self;
        self.mark_initialized();
        proof {
            Self::lemma_stable_progress(mid, *self);
        }
        self.function(FunctionType::Function);
        let ghost mid2 = *self;
        self.define_variable(global);
        proof {
            Self::lemma_stable_progress(mid2, *self);
        }
    }

    /// Compiles the parameters and body of a function named by the previous token,
    /// and emits the instruction that makes a closure of it.
    #[verifier::rlimit(60)]
    fn function(&mut self, function_type: FunctionType)
        requires
            old(self).wf(),
            old(self).started(),
        ensures
            final(self).code().len() >= old(self).code().len() + 2,
            final(self).code().subrange(0, old(self).code().len() as int) == old(self).code(),
            final(self).code()[old(self).code().len() as int] == OpCode::Closure.spec_u8(),
            final(self).consts().len() == old(self).consts().len() + 1,
            final(self).consts().subrange(0, old(self).consts().len() as int) == old(self).consts(),
            final(self).consts().last() matches Constant::Function(f) && f.name@ == old(self).previous.lexeme@,
            old(self).current.kind == TokenKind::LeftParen && old(self).next_kind() == TokenKind::RightParen
                ==> (final(self).consts().last() matches Constant::Function(f) && f.arity == 0),
            old(self).current.kind == TokenKind::LeftParen && old(self).next_kind() != TokenKind::RightParen
                && old(self).next_kind() != TokenKind::Error ==> (final(self).consts().last() matches Constant::Function(
                f,
            ) && f.arity >= 1),
            Self::progress(*old(self), *final(self)),
            final(self).comp_unit.scope_depth == old(self).comp_unit.scope_depth,
            old(self).current.kind != TokenKind::Eof && old(self).current.kind
                != TokenKind::RightBrace ==> final(self).measure() < old(self).measure(),
        decreases old(self).measure(), 22int,
    {
        let ghost a = *self;
        proof {
            Self::lemma_budget_pos(a);
        }
        let name = self.previous.lexeme.clone();
        let mut unit = CompilationUnit::new(function_type, Some(name), None);
        std::mem::swap(&mut unit, &mut self.comp_unit);
        self.comp_unit.enclosing = Some(Box::new(unit));
        assert(encl_shapes(self.comp_unit.enclosing) =~= seq![shape_of(a.comp_unit)] + encl_shapes(
            a.comp_unit.enclosing,
        ));
        self.begin_scope();
        let ghost s1 = *self;
        self.consume(TokenKind::LeftParen, "Expect '(' after function name.");
        if !self.check(TokenKind::RightParen) {
            loop
                invariant_except_break
                    Self::progress_core(s1, *self),
                    self.comp_unit.function.name == s1.comp_unit.function.name,
                    self.comp_unit.function_type == s1.comp_unit.function_type,
                    self.comp_unit.function.arity <= self.scanner@.start,
                    self.scanner@.start < usize::MAX,
                    !self.had_error ==> self.comp_unit.pending_jumps@ =~= s1.comp_unit.pending_jumps@,
                ensures
                    Self::progress_core(s1, *self),
                    self.comp_unit.function.name == s1.comp_unit.function.name,
                    self.comp_unit.function_type == s1.comp_unit.function_type,
                    !self.had_error ==> self.comp_unit.pending_jumps@ =~= s1.comp_unit.pending_jumps@,
                    self.comp_unit.function.arity >= 1,
                decreases self.measure(),
            {
                self.comp_unit.function.arity = self.comp_unit.function.arity + 1;
                if self.comp_unit.function.arity > 255 {
                    self.error_at_current("Can't have more than 255 parameters.");
                }
                let constant = self.parse_variable("Expect parameter name.");
                let ghost mid = *self;
                self.define_variable(constant);
                proof {
                    Self::lemma_stable_progress(mid, *self);
                }
                if !self.match_token(TokenKind::Comma) {
                    break;
                }
            }
        }
        self.consume(TokenKind::RightParen, "Expect ')' after function name.");
        self.consume(TokenKind::LeftBrace, "Expect '{' before function body.");
        self.block();
        let ghost s2 = *self;
        let upvalues = self.comp_unit.upvalues.clone();
        let func = self.end_comp_unit();
        proof {
            let e = s2.comp_unit.enclosing->0;
            assert(encl_shapes(s2.comp_unit.enclosing)[0] == shape_of(*e));
            assert(encl_shapes(s2.comp_unit.enclosing).subrange(1, encl_shapes(s2.comp_unit.enclosing).len() as int) =~= encl_shapes(e.enclosing));
            assert(encl_shapes(s1.comp_unit.enclosing).subrange(1, encl_shapes(s1.comp_unit.enclosing).len() as int) =~= encl_shapes(a.comp_unit.enclosing));
        }
        let upvalue_count = func.upvalue_count;
        let ghost s3 = *self;
        let constant = self.make_constant(Constant::Function(Box::new(func)));
        let mut instr: Vec<u8> = Vec::new();
        instr.push(OpCode::Closure.u8());
        instr.push(constant);
        let mut i: usize = 0;
        while i < upvalue_count
            invariant
                i <= upvalue_count <= 255,
                upvalue_count == upvalues@.len(),
                instr@.len() == 2 + 2 * i,
                instr@[0] == OpCode::Closure.spec_u8(),
                instr@[1] == constant,
                forall|j: int|
                    #![trigger instr@[2 + 2 * j]]
                    0 <= j < i ==> instr@[2 + 2 * j] == (if upvalues@[j].is_local {
                        1u8
                    } else {
                        0u8
                    }) && instr@[3 + 2 * j] == upvalues@[j].index,
            decreases upvalue_count - i,
        {
            let upvalue = upvalues[i];
            let is_local: u8 = if upvalue.is_local {
                1
            } else {
                0
            };
            let ghost before = instr@;
            instr.push(is_local);
            instr.push(upvalue.index);
            proof {
                assert forall|j: int| #![trigger instr@[2 + 2 * j]] 0 <= j < i + 1 implies instr@[2 + 2 * j]
                    == (if upvalues@[j].is_local {
                    1u8
                } else {
                    0u8
                }) && instr@[3 + 2 * j] == upvalues@[j].index by {
                    if j < i {
                        assert(instr@[2 + 2 * j] == before[2 + 2 * j]);
                        assert(instr@[3 + 2 * j] == before[3 + 2 * j]);
                    }
                }
            }
            i = i + 1;
        }
        let ghost s4 = *self;
        proof {
            lemma_opcode_roundtrip(OpCode::Closure);
            assert((s4.comp_unit.function.chunk.code@ + instr@)[s4.comp_unit.function.chunk.code@.len() as int]
                == instr@[0]);
            if !s4.had_error {
                let code = s4.comp_unit.function.chunk.code@;
                let consts = s4.comp_unit.function.chunk.constants@;
                assert((code + instr@)[code.len() as int] == instr@[0]);
                assert((code + instr@)[code.len() as int + 1] == constant);
                assert(function_upvalues(consts, constant as int) == Some(upvalue_count as nat));
                let len = code.len() as int;
                let e = s2.comp_unit.enclosing->0;
                assert(captured_from(s2.comp_unit.upvalues@, e.upvalues@.len() as int));
                assert forall|j: int| 0 <= j < upvalues@.len() implies upvalues@[j] == s2.comp_unit.upvalues@[j] by {}
                assert forall|i: int|
                    #![trigger (code + instr@)[len + 2 + 2 * i]]
                    0 <= i < upvalue_count implies {
                    &&& (code + instr@)[len + 2 + 2 * i] <= 1
                    &&& ((code + instr@)[len + 2 + 2 * i] == 0 ==> (code + instr@)[len + 3 + 2 * i]
                        < s4.comp_unit.upvalues@.len())
                } by {
                    assert((code + instr@)[len + 2 + 2 * i] == instr@[2 + 2 * i]);
                    assert((code + instr@)[len + 3 + 2 * i] == instr@[3 + 2 * i]);
                    assert(upvalues@[i] == s2.comp_unit.upvalues@[i]);
                }
            }
        }
        self.emit_instruction(&instr);
        proof {
            Self::lemma_stable_progress(s3, *self);
        }
    }

    fn method(&mut self)
        requires
            old(self).wf(),
            old(self).started(),
        ensures
            final(self).code().len() >= old(self).code().len() + 4,
            final(self).code()[old(self).code().len() as int] == OpCode::Closure.spec_u8(),
            final(self).code()[final(self).code().len() - 2] == OpCode::Method.spec_u8(),
            final(self).code()[final(self).code().len() - 1] == next_constant_byte(old(self).consts()),
            old(self).current.kind == TokenKind::Identifier ==> (final(self).consts()[old(self).consts().len() as int]
                matches Constant::Str(o) && o.string@ == old(self).current.lexeme@),
            final(self).comp_unit.scope_depth == old(self).comp_unit.scope_depth,
            Self::progress(*old(self), *final(self)),
            old(self).current.kind != TokenKind::Eof && old(self).current.kind
                != TokenKind::RightBrace ==> final(self).measure() < old(self).measure(),
        decreases old(self).measure(), 23int,
    {
        self.consume(TokenKind::Identifier, "Expect method name.");
        let method_name = self.previous.lexeme.clone();
        let ghost mid = *self;
        let name_constant = self.identifier_constant(method_name);
        proof {
            Self::lemma_stable_progress(mid, *self);
        }
        let mut func_type = FunctionType::Method;
        if self.previous.lexeme == "init".to_owned() {
            func_type = FunctionType::Initializer;
        }
        self.function(func_type);
        let ghost mid2 = *self;
        self.emit_op_with(OpCode::Method, name_constant);
        proof {
            Self::lemma_stable_progress(mid2, *self);
        }
    }

    #[verifier::rlimit(100)]
    fn class_declaration(&mut self)
        requires
            old(self).wf(),
            old(self).started(),
        ensures
            final(self).code().len() >= old(self).code().len() + 2,
            !final(self).had_error ==> final(self).code()[old(self).code().len() as int] == OpCode::Class.spec_u8()
                && final(self).previous.kind == TokenKind::RightBrace,
            old(self).current.kind == TokenKind::Identifier ==> (final(self).consts()[old(self).consts().len() as int]
                matches Constant::Str(o) && o.string@ == old(self).current.lexeme@),
            old(self).current.kind == TokenKind::Identifier && old(self).next_kind() == TokenKind::Less && ({
                let t1 = old(self).next_token();
                let t2 = spec_scan(old(self).scanner@.chars, t1.pos, t1.line);
                t2.kind == TokenKind::Identifier && t2.lexeme == old(self).current.lexeme@
            }) ==> final(self).had_error,
            old(self).current.kind == TokenKind::Identifier && old(self).next_kind() == TokenKind::Less
                && old(self).comp_unit.scope_depth >= 0 && !final(self).had_error ==> final(self).code()[
                old(self).code().len() + (if old(self).comp_unit.scope_depth == 0 {
                8int
            } else {
                6int
            })] == OpCode::Inherit.spec_u8(),
            Self::progress(*old(self), *final(self)),
        decreases old(self).measure(), 24int,
    {
        let ghost a = *self;
        self.consume(TokenKind::Identifier, "Expect class name.");
        let class_name = self.previous.lexeme.clone();
        let ghost s0 = *self;
        let name_constant = self.identifier_constant(class_name.clone());
        self.declare_variable();
        self.emit_op_with(OpCode::Class, name_constant);
        self.define_variable(name_constant);
        proof {
            Self::lemma_stable_progress(s0, *self);
        }
        let enclosing = self.class_compiler.take();
        self.class_compiler = Some(Box::new(ClassCompiler { enclosing, has_superclass: false }));
        let ghost s1 = *self;
        let ghost mut began = false;
        let ghost mut inh: int = 0;
        if self.match_token(TokenKind::Less) {
            self.consume(TokenKind::Identifier, "Expect superclass name.");
            self.variable(false);
            if class_name == self.previous.lexeme {
                return self.error("A class can't inherit from itself.");
            }
            let ghost s2 = *self;
            assert(abs(s2.comp_unit.scope_depth + 1) <= s2.budget());
            self.begin_scope();
            let ghost s3 = *self;
            self.add_local(synthetic_token("super"));
            self.define_variable(0);
            proof {
                Self::lemma_stable_progress(s3, *self);
            }
            self.named_variable(class_name.clone(), false);
            let ghost s4 = *self;
            self.emit_op(OpCode::Inherit);
            proof {
                Self::lemma_stable_progress(s4, *self);
                inh = s4.code().len() as int;
                if !self.had_error {
                    assert(reaches(s4.code(), s4.consts(), 0, inh));
                    assert(reaches(self.code(), self.consts(), 0, inh));
                }
            }
            let mut cc = self.class_compiler.take().unwrap();
            cc.has_superclass = true;
            self.class_compiler = Some(cc);
            proof {
                began = true;
            }
        }
        let ghost s_b = *self;
        proof {
            if began && !self.had_error {
                assert(self.code()[inh] == OpCode::Inherit.spec_u8());
                assert(reaches(self.code(), self.consts(), 0, inh));
                if a.comp_unit.scope_depth >= 0 {
                    assert(inh == a.code().len() + (if a.comp_unit.scope_depth == 0 {
                        8int
                    } else {
                        6int
                    }));
                }
            }
        }
        self.named_variable(class_name, false);
        let ghost s_n = *self;
        self.consume(TokenKind::LeftBrace, "Expect '{' before class body.");
        let ghost s5 = *self;
        proof {
            if began && !self.had_error {
                lemma_kept_at(s_b.comp_unit.function.chunk, s_n.comp_unit.function.chunk, inh);
                lemma_kept_at(s_n.comp_unit.function.chunk, s5.comp_unit.function.chunk, inh);
            }
        }
        let ghost mut loop_ran = false;
        while !self.check(TokenKind::RightBrace) && !self.check(TokenKind::Eof)
            invariant
                Self::progress(s5, *self),
                s5.measure() <= a.measure(),
                self.measure() <= old(self).measure(),
                self.comp_unit.scope_depth == s5.comp_unit.scope_depth,
                !loop_ran ==> self.class_compiler == s5.class_compiler,
                loop_ran ==> self.measure() < s5.measure(),
            decreases self.measure(),
        {
            self.method();
            proof {
                loop_ran = true;
            }
        }
        let ghost s_l = *self;
        self.consume(TokenKind::RightBrace, "Expect '}' after class body.");
        let ghost s6 = *self;
        self.emit_op(OpCode::Pop);
        proof {
            Self::lemma_stable_progress(s6, *self);
            if began && !self.had_error {
                lemma_kept_at(s5.comp_unit.function.chunk, s_l.comp_unit.function.chunk, inh);
                lemma_kept_at(s_l.comp_unit.function.chunk, s6.comp_unit.function.chunk, inh);
                lemma_kept_at(s6.comp_unit.function.chunk, self.comp_unit.function.chunk, inh);
            }
        }
        let ghost s7 = *self;
        let has_superclass = match &self.class_compiler {
            Some(cc) => cc.has_superclass,
            None => false,
        };
        if has_superclass {
            assert(abs(s7.comp_unit.scope_depth - 1) <= s7.budget());
            self.end_scope();
        }
        let cc = self.class_compiler.take().unwrap();
        self.class_compiler = cc.enclosing;
        proof {
            if began && !self.had_error {
                assert(self.code()[inh] == s7.code()[inh]);
            }
        }
    }

    /// Compiles the whole source as the top-level script. A compiler runs only once.
    #[verifier::rlimit(100)]
    pub fn compile(&mut self) -> (r: Result<Function, CompileError>)
        requires
            old(self).has_run() || old(self).is_ready(),
        ensures
            final(self).has_run(),
            old(self).has_run() ==> r == Err::<Function, CompileError>(CompileError::AlreadyRan)
                && *final(self) == *old(self),
            !old(self).has_run() ==> r != Err::<Function, CompileError>(CompileError::AlreadyRan),
            r matches Err(CompileError::HadErrors(d)) ==> d@.len() > 0,
            r matches Ok(f) ==> old(self).compiled_script(f),
            old(self).script_of() matches Some(sc) ==> (r matches Ok(f) && f.chunk.code@ == sc.code + seq![
                OpCode::Nil.spec_u8(),
                OpCode::Return.spec_u8(),
            ] && f.chunk.constants@.len() == sc.numbers.len() && forall|k: int|
                0 <= k < sc.numbers.len() ==> is_number(#[trigger] f.chunk.constants@[k], sc.numbers[k])),
    {
        if self.ran {
            return Err(CompileError::AlreadyRan);
        }
        let ghost total = old(self).script_of();
        let ghost frag = total is Some;
        let ghost sch = self.scanner@.chars;
        self.ran = true;
        self.advance();
        let ghost s0 = *self;
        let ghost mut acc = Compiled { code: Seq::empty(), numbers: Seq::empty(), rest: s0.cursor() };
        proof {
            if frag {
                reveal(Compiler::yields);
                assert(s0.code() =~= s0.code() + acc.code);
                assert(s0.cursor() == next_cursor(sch, start_cursor()));
                assert(joined(acc, spec_statements(sch, acc.rest, 0)) == total) by {
                    let t = spec_statements(sch, acc.rest, 0)->0;
                    assert(acc.code + t.code =~= t.code);
                    assert(acc.numbers + t.numbers =~= t.numbers);
                }
            }
        }
        while !self.match_token(TokenKind::Eof)
            invariant
                frag == (total is Some),
                total == old(self).script_of(),
                sch == old(self).scanner@.chars,
                frag ==> Self::yields(s0, *self, acc),
                frag ==> joined(acc, spec_statements(sch, acc.rest, acc.numbers.len())) == total,
                frag ==> s0.code().len() == 0 && s0.consts().len() == 0 && !s0.had_error,
                Self::progress(s0, *self),
                s0.comp_unit.enclosing is None,
                s0.comp_unit.function.name == old(self).comp_unit.function.name,
                s0.comp_unit.function.arity == old(self).comp_unit.function.arity,
                s0.comp_unit.function_type == FunctionType::Script,
                s0.comp_unit.pending_jumps@ == Set::<int>::empty(),
                s0.scanner@.chars == old(self).scanner@.chars,
                self.ran,
            decreases self.measure(),
        {
            let ghost before = *self;
            self.declaration();
            proof {
                if frag {
                    reveal(Compiler::yields);
                    let st = spec_statement(sch, acc.rest, acc.numbers.len())->0;
                    let rest = spec_statements(sch, st.rest, acc.numbers.len() + st.numbers.len())->0;
                    Self::lemma_yields_trans(s0, before, before, *self, acc, st);
                    let acc2 = Compiled { code: acc.code + st.code, numbers: acc.numbers + st.numbers, rest: st.rest };
                    assert(acc.code + (st.code + rest.code) =~= acc2.code + rest.code);
                    assert(acc.numbers + (st.numbers + rest.numbers) =~= acc2.numbers + rest.numbers);
                    acc = acc2;
                }
            }
        }
        proof {
            if frag {
                reveal(Compiler::yields);
                assert(acc.code + Seq::<u8>::empty() =~= acc.code);
                assert(acc.numbers + Seq::<Seq<char>>::empty() =~= acc.numbers);
            }
            lemma_lexes_cleanly_step(self.scanner@.chars, self.scanner@.pos, self.scanner@.line);
            if self.comp_unit.enclosing is Some {
                assert(encl_shapes(self.comp_unit.enclosing).len() > 0);
            }
        }
        if self.had_error {
            let mut diagnostics = Vec::new();
            std::mem::swap(&mut diagnostics, &mut self.diagnostics);
            return Err(CompileError::HadErrors(diagnostics));
        }
        let ghost e0 = *self;
        let f = self.end_comp_unit();
        proof {
            if frag {
                reveal(Compiler::yields);
                let sc = total->0;
                assert(f.chunk.code@ =~= sc.code + seq![OpCode::Nil.spec_u8(), OpCode::Return.spec_u8()]);
                assert forall|k: int| 0 <= k < sc.numbers.len() implies is_number(
                    #[trigger] f.chunk.constants@[k],
                    sc.numbers[k],
                ) by {
                    assert(f.chunk.constants@[k] == e0.consts()[k]);
                }
            }
        }
        Ok(f)
    }

    /// A compiler for `source` that has not run yet, at the start of the source
    /// with the top-level script as the function being compiled.
    pub closed spec fn is_fresh_for(&self, source: Seq<char>) -> bool {
        &&& self.wf()
        &&& !self.ran
        &&& !self.had_error
        &&& !self.panic_mode
        &&& self.scanner@.chars == source
        &&& self.scanner@.pos == 0
        &&& self.scanner@.line == 1
        &&& self.comp_unit.enclosing is None
        &&& self.comp_unit.scope_depth == 0
        &&& self.comp_unit.function_type == FunctionType::Script
        &&& self.comp_unit.function.name@.len() == 0
        &&& self.comp_unit.function.arity == 0
        &&& self.comp_unit.function.upvalue_count == 0
        &&& self.comp_unit.function.chunk.code@.len() == 0
        &&& self.comp_unit.function.chunk.constants@.len() == 0
        &&& self.comp_unit.pending_jumps@ == Set::<int>::empty()
        &&& self.class_compiler is None
    }

    /// A compiler that can run: well formed, compiling the top-level script, and
    /// either at the start of the source or past its first token.
    pub closed spec fn is_ready(&self) -> bool {
        &&& self.wf()
        &&& self.comp_unit.enclosing is None
        &&& self.comp_unit.function_type == FunctionType::Script
        &&& self.comp_unit.pending_jumps@ == Set::<int>::empty()
        &&& (self.started() || unit_wf(self.comp_unit, 0))
    }

    /// What compiling the source of this compiler as the top-level script gives
    /// on success: the source has no lexical error, and the result is a function
    /// with the script's name, no parameters and no captured variables, that is
    /// well formed (`function_ok`), whose code has a line for every byte and ends
    /// by returning `nil`.
    pub closed spec fn compiled_script(&self, f: Function) -> bool {
        &&& lexes_cleanly(self.scanner@.chars, 0, 1)
        &&& f.name == self.comp_unit.function.name
        &&& f.arity == self.comp_unit.function.arity
        &&& f.upvalue_count == 0
        &&& f.chunk.wf()
        &&& function_ok(f)
        &&& f.chunk.code@.len() >= 2
        &&& f.chunk.code@[f.chunk.code@.len() - 2] == OpCode::Nil.spec_u8()
        &&& f.chunk.code@[f.chunk.code@.len() - 1] == OpCode::Return.spec_u8()
    }

    /// What compiling the source gives where this compiler has not run yet, stands
    /// at the start of the source, and the source is one `spec_script` covers.
    pub closed spec fn script_of(&self) -> Option<Compiled> {
        if !self.ran && !self.had_error && self.code().len() == 0 && self.consts().len() == 0
            && self.scanner@.pos == 0 && self.scanner@.line == 1 {
            spec_script(self.scanner@.chars)
        } else {
            None
        }
    }

    /// A fresh compiler is ready, and what it compiles is the script of its source.
    pub proof fn lemma_fresh(&self, source: Seq<char>)
        requires
            self.is_fresh_for(source),
        ensures
            self.is_ready(),
            !self.has_run(),
            forall|f: Function| self.compiled_script(f) ==> compiled_source(source, f),
            self.script_of() == spec_script(source),
    {
    }

    /// Whether the compiler has been run already.
    pub closed spec fn has_run(&self) -> bool {
        self.ran
    }

    spec fn wf(&self) -> bool {
        &&& self.wf_base()
        &&& (!self.had_error ==> code_ok(
            self.comp_unit.function.chunk,
            self.comp_unit.pending_jumps@,
            self.comp_unit.upvalues@.len() as int,
        ) && self.comp_unit.function.arity <= 255 && encl_ok(self.comp_unit.enclosing))
    }

    /// `wf`, but the code need not be well formed.
    spec fn wf_base(&self) -> bool {
        &&& self.scanner.wf()
        &&& self.panic_mode ==> self.had_error
        &&& self.had_error <==> self.diagnostics@.len() > 0
        &&& self.current.kind != TokenKind::Error
        &&& (self.current.kind != TokenKind::Eof ==> self.scanner@.start < self.scanner@.pos)
        &&& token_wf(self.current)
        &&& token_wf(self.previous)
        &&& unit_wf(self.comp_unit, self.budget())
        &&& (!self.had_error ==> (lexes_cleanly(
            self.scanner@.chars,
            self.scanner@.pos,
            self.scanner@.line,
        ) ==> lexes_cleanly(self.scanner@.chars, 0, 1)))
    }

    /// The current token is the last one the scanner read: `Eof` only at the end.
    spec fn started(&self) -> bool {
        self.current.kind == TokenKind::Eof ==> self.scanner@.pos == self.scanner@.chars.len()
    }

    /// Everything but the error state is unchanged.
    spec fn same_but_errors(a: Compiler, b: Compiler) -> bool {
        &&& b.ran == a.ran
        &&& b.scanner == a.scanner
        &&& b.current == a.current
        &&& b.previous == a.previous
        &&& b.comp_unit == a.comp_unit
        &&& b.class_compiler == a.class_compiler
    }

    /// What every parsing step keeps: the compiler stays well formed, the parse
    /// only moves forward (and when it does not move, the current token stays),
    /// the nesting of functions is the same, code is only added, and the scope
    /// depth moves by at most how far the parse moved.
    spec fn progress(a: Compiler, b: Compiler) -> bool {
        &&& Self::progress_code(a, b)
        &&& (!b.had_error ==> b.comp_unit.pending_jumps@ =~= a.comp_unit.pending_jumps@)
    }

    /// `progress`, but jumps may still be waiting to be filled in.
    spec fn progress_code(a: Compiler, b: Compiler) -> bool {
        &&& Self::progress_core(a, b)
        &&& b.comp_unit.function.arity == a.comp_unit.function.arity
        &&& b.comp_unit.function.name == a.comp_unit.function.name
        &&& b.comp_unit.function_type == a.comp_unit.function_type
    }

    /// `progress`, but the parameters of the function being compiled may have changed.
    spec fn progress_core(a: Compiler, b: Compiler) -> bool {
        &&& b.wf()
        &&& b.started()
        &&& b.scanner@.chars == a.scanner@.chars
        &&& b.measure() <= a.measure()
        &&& (b.measure() == a.measure() ==> b.current.kind == a.current.kind)
        &&& b.ran == a.ran
        &&& encl_shapes(b.comp_unit.enclosing) == encl_shapes(a.comp_unit.enclosing)
        &&& b.comp_unit.function.chunk.code@.len() >= a.comp_unit.function.chunk.code@.len()
        &&& abs(b.comp_unit.scope_depth - a.comp_unit.scope_depth) <= a.measure() - b.measure()
        &&& cc_depth(b.class_compiler) >= cc_depth(a.class_compiler)
        &&& a.scanner@.start <= b.scanner@.start
        &&& (a.had_error ==> b.had_error)
        &&& consts_grow(a.comp_unit.function.chunk.constants@, b.comp_unit.function.chunk.constants@)
        &&& (!b.had_error ==> walk_kept(a.comp_unit.function.chunk, b.comp_unit.function.chunk))
    }

    /// A compiler for `source` that has not run yet.
    pub fn new(source: &str) -> (c: Compiler)
        requires
            source@.len() < usize::MAX,
        ensures
            c.is_fresh_for(source@),
    {
        let scanner = Scanner::new(source);
        let current = Token { kind: TokenKind::Eof, lexeme: String::new(), line: 0 };
        let previous = Token { kind: TokenKind::Eof, lexeme: String::new(), line: 0 };
        Compiler {
            ran: false,
            had_error: false,
            panic_mode: false,
            scanner,
            current,
            previous,
            comp_unit: CompilationUnit::new(FunctionType::Script, None, None),
            class_compiler: None,
            diagnostics: Vec::new(),
        }
    }

    /// Reports an error at `token`, unless an error is being recovered from.
    fn error_at(&mut self, token: &Token, message: &str)
        requires
            old(self).panic_mode ==> old(self).had_error,
            old(self).had_error <==> old(self).diagnostics@.len() > 0,
        ensures
            Self::same_but_errors(*old(self), *final(self)),
            final(self).had_error,
            final(self).panic_mode,
            final(self).diagnostics@.len() > 0,
            old(self).panic_mode ==> final(self).diagnostics == old(self).diagnostics,
            !old(self).panic_mode ==> final(self).diagnostics@ == old(self).diagnostics@.push(
                final(self).diagnostics@.last(),
            ) && final(self).diagnostics@.last().line == token.line
                && final(self).diagnostics@.last().message@ == message@,
    {
        if self.panic_mode {
            return;
        }
        self.panic_mode = true;
        let location = if token.kind == TokenKind::Eof {
            ErrorLocation::AtEnd
        } else if token.kind == TokenKind::Error {
            ErrorLocation::AtScanError
        } else {
            ErrorLocation::AtLexeme(token.lexeme.clone())
        };
        self.diagnostics.push(
            Diagnostic { line: token.line, location, message: message.to_owned() },
        );
        self.had_error = true;
    }

    fn error_at_current(&mut self, message: &str)
        requires
            old(self).panic_mode ==> old(self).had_error,
            old(self).had_error <==> old(self).diagnostics@.len() > 0,
        ensures
            Self::same_but_errors(*old(self), *final(self)),
            final(self).had_error,
            final(self).panic_mode,
            final(self).diagnostics@.len() > 0,
            old(self).panic_mode ==> final(self).diagnostics == old(self).diagnostics,
            !old(self).panic_mode ==> final(self).diagnostics@ == old(self).diagnostics@.push(
                final(self).diagnostics@.last(),
            ) && final(self).diagnostics@.last().line == old(self).current.line
                && final(self).diagnostics@.last().message@ == message@,
    {
        let token = self.current.clone();
        self.error_at(&token, message);
    }

    fn error(&mut self, message: &str)
        requires
            old(self).panic_mode ==> old(self).had_error,
            old(self).had_error <==> old(self).diagnostics@.len() > 0,
        ensures
            Self::same_but_errors(*old(self), *final(self)),
            final(self).had_error,
            final(self).panic_mode,
            final(self).diagnostics@.len() > 0,
            old(self).panic_mode ==> final(self).diagnostics == old(self).diagnostics,
            !old(self).panic_mode ==> final(self).diagnostics@ == old(self).diagnostics@.push(
                final(self).diagnostics@.last(),
            ) && final(self).diagnostics@.last().line == old(self).previous.line
                && final(self).diagnostics@.last().message@ == message@,
    {
        let token = self.previous.clone();
        self.error_at(&token, message);
    }

    /// Moves to the next token, reporting (and skipping) the error tokens on the way.
    fn advance(&mut self)
        requires
            old(self).wf(),
            old(self).started() || unit_wf(old(self).comp_unit, 0),
        ensures
            final(self).wf(),
            final(self).started(),
            final(self).scanner@.chars == old(self).scanner@.chars,
            final(self).ran == old(self).ran,
            final(self).comp_unit == old(self).comp_unit,
            final(self).class_compiler == old(self).class_compiler,
            final(self).previous == old(self).current,
            old(self).had_error ==> final(self).had_error,
            old(self).current.kind != TokenKind::Eof ==> final(self).measure() < old(self).measure(),
            old(self).current.kind != TokenKind::Eof ==> old(self).scanner@.start < final(self).scanner@.start,
            old(self).scanner@.start <= final(self).scanner@.start,
            old(self).started() ==> final(self).measure() <= old(self).measure(),
            old(self).started() && old(self).current.kind == TokenKind::Eof
                ==> final(self).current.kind == TokenKind::Eof,
            old(self).next_kind() != TokenKind::Error ==> final(self).current.kind == old(self).next_kind(),
            old(self).next_kind() != TokenKind::Error ==> Self::took_next(*old(self), *final(self)),
    {
        self.previous = self.current.clone();
        let ghost s = self.scanner@.chars;
        let ghost p0 = self.scanner@.pos;
        let ghost l0 = self.scanner@.line;
        loop
            invariant_except_break
                self.scanner.wf(),
                self.scanner@.chars == s,
                p0 <= self.scanner@.pos,
                self.panic_mode ==> self.had_error,
                self.had_error <==> self.diagnostics@.len() > 0,
                old(self).had_error ==> self.had_error,
                !self.had_error ==> (lexes_cleanly(s, self.scanner@.pos, self.scanner@.line)
                    ==> lexes_cleanly(s, 0, 1)),
                self.ran == old(self).ran,
                self.comp_unit == old(self).comp_unit,
                self.class_compiler == old(self).class_compiler,
                self.previous == old(self).current,
                old(self).started() && old(self).current.kind == TokenKind::Eof ==> p0 == s.len(),
                token_wf(self.previous),
                spec_scan(s, p0, l0).kind != TokenKind::Error ==> self.scanner@.pos == p0
                    && self.scanner@.line == l0 && self.had_error == old(self).had_error
                    && self.panic_mode == old(self).panic_mode && self.diagnostics == old(self).diagnostics,
            ensures
                self.scanner.wf(),
                self.scanner@.chars == s,
                p0 <= self.scanner@.pos,
                self.panic_mode ==> self.had_error,
                self.had_error <==> self.diagnostics@.len() > 0,
                old(self).had_error ==> self.had_error,
                !self.had_error ==> (lexes_cleanly(s, self.scanner@.pos, self.scanner@.line)
                    ==> lexes_cleanly(s, 0, 1)),
                self.ran == old(self).ran,
                self.comp_unit == old(self).comp_unit,
                self.class_compiler == old(self).class_compiler,
                self.previous == old(self).current,
                token_wf(self.previous),
                token_wf(self.current),
                self.current.kind != TokenKind::Error,
                self.current.kind != TokenKind::Eof ==> self.scanner@.start < self.scanner@.pos,
                self.current.kind != TokenKind::Eof ==> p0 < self.scanner@.pos,
                p0 <= self.scanner@.start,
                self.current.kind == TokenKind::Eof ==> self.scanner@.pos == s.len(),
                old(self).started() && old(self).current.kind == TokenKind::Eof ==> self.current.kind
                    == TokenKind::Eof,
                spec_scan(s, p0, l0).kind != TokenKind::Error ==> {
                    &&& self.current.kind == spec_scan(s, p0, l0).kind
                    &&& self.current.lexeme@ == spec_scan(s, p0, l0).lexeme
                    &&& self.scanner@.pos == spec_scan(s, p0, l0).pos
                    &&& self.scanner@.line == spec_scan(s, p0, l0).line
                    &&& self.had_error == old(self).had_error
                    &&& self.panic_mode == old(self).panic_mode
                    &&& self.diagnostics == old(self).diagnostics
                },
            decreases s.len() - self.scanner@.pos,
        {
            let ghost pos = self.scanner@.pos;
            let ghost line = self.scanner@.line;
            proof {
                lemma_scan_progress(s, pos, line);
                lemma_lexes_cleanly_step(s, pos, line);
                lemma_scan_at_end(s, line);
            }
            self.current = self.scanner.scan_token();
            if self.current.kind != TokenKind::Error {
                break;
            }
            let message = self.current.lexeme.clone();
            self.error_at_current(message.as_str());
        }
        proof {
            lemma_unit_wf_mono(self.comp_unit, if old(self).started() {
                old(self).budget()
            } else {
                0
            }, self.budget());
        }
    }

    fn check(&self, kind: TokenKind) -> (b: bool)
        ensures
            b == (self.current.kind == kind),
    {
        self.current.kind == kind
    }

    /// Moves past the current token if it is of `kind`, and says whether it did.
    fn match_token(&mut self, kind: TokenKind) -> (b: bool)
        requires
            old(self).wf(),
            old(self).started(),
        ensures
            b == (old(self).current.kind == kind),
            Self::progress(*old(self), *final(self)),
            final(self).comp_unit == old(self).comp_unit,
            final(self).class_compiler == old(self).class_compiler,
            !b ==> *final(self) == *old(self),
            b ==> final(self).previous == old(self).current,
            b && kind != TokenKind::Eof ==> final(self).measure() < old(self).measure(),
            b && kind != TokenKind::Eof ==> old(self).scanner@.start < final(self).scanner@.start,
            b && old(self).next_kind() != TokenKind::Error ==> Self::took_next(*old(self), *final(self)),
            b && kind == TokenKind::Eof ==> final(self).had_error == old(self).had_error,
    {
        if !self.check(kind) {
            return false;
        }
        proof {
            lemma_scan_at_end(self.scanner@.chars, self.scanner@.line);
        }
        self.advance();
        true
    }

    /// Moves past the current token if it is of `kind`; reports `message` otherwise.
    fn consume(&mut self, kind: TokenKind, message: &str)
        requires
            old(self).wf(),
            old(self).started(),
        ensures
            Self::progress(*old(self), *final(self)),
            final(self).comp_unit == old(self).comp_unit,
            final(self).class_compiler == old(self).class_compiler,
            old(self).current.kind == kind ==> final(self).previous == old(self).current,
            old(self).current.kind == kind && kind != TokenKind::Eof ==> final(self).measure()
                < old(self).measure(),
            old(self).current.kind == kind && kind != TokenKind::Eof ==> old(self).scanner@.start
                < final(self).scanner@.start,
            old(self).current.kind != kind ==> final(self).current == old(self).current
                && final(self).measure() == old(self).measure(),
            old(self).current.kind != kind ==> final(self).had_error,
            old(self).current.kind == kind && old(self).next_kind() != TokenKind::Error ==> final(self).current.kind
                == old(self).next_kind(),
            old(self).current.kind == kind && old(self).next_kind() != TokenKind::Error ==> Self::took_next(
                *old(self),
                *final(self),
            ),
    {
        if self.current.kind == kind {
            self.advance();
            return;
        }
        self.error_at_current(message);
    }

}

} // verus!
