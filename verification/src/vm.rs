use crate::chunk::{is_jump_at, jump_distance, jump_target, lemma_opcode_decode, lemma_opcode_roundtrip, OpCode};
use crate::compiler::{decimal, decimal_text};
use vstd::prelude::*;

verus! {

/// How to run a program.
pub struct Options {
    /// Print the stack and each instruction before it runs.
    pub trace_execution: bool,
}

impl Default for Options {
    fn default() -> (o: Options)
        ensures
            !o.trace_execution,
    {
        Options { trace_execution: false }
    }
}

/// The kinds of errors of a running program.
#[derive(Debug, PartialEq, Eq, Structural, Clone, Copy)]
pub enum LoxErrorKind {
    RuntimeError,
}

/// An error of a running program: its kind and its message.
#[derive(Debug, PartialEq)]
pub struct LoxError {
    pub kind: LoxErrorKind,
    pub message: String,
}

impl LoxError {
    pub fn new(kind: LoxErrorKind, message: &str) -> (e: LoxError)
        ensures
            e.kind == kind,
            e.message@ == message@,
    {
        LoxError { kind, message: message.to_owned() }
    }
}

/// The most call frames that can be active at once.
pub const FRAMES_MAX: usize = 255;

/// What the machine knows of a value that a program calls.
#[derive(Debug, PartialEq, Eq, Structural, Clone, Copy)]
pub enum Callee {
    /// A closure that expects `arity` arguments.
    Closure { arity: usize },
    /// A method bound to its receiver; the method expects `arity` arguments.
    BoundMethod { arity: usize },
    /// A class, with the arity of its `init` method where it has one.
    Class { initializer: Option<usize> },
    /// A function of the host.
    Native,
    /// A value that cannot be called.
    NotCallable,
}

/// What the machine does for a call of a callee with its arguments on the stack.
#[derive(Debug, PartialEq)]
pub enum CallAction {
    /// Start running the callee in a new frame whose slots begin at `slots_base`,
    /// where the callee itself lies. For a bound method, that slot first gets the
    /// receiver; for a class, a new instance, and the frame runs its `init`.
    PushFrame { slots_base: usize },
    /// A class without `init` called without arguments: the slot of the class
    /// gets a new instance, and no frame is pushed.
    NewInstance { slot: usize },
    /// Run the host function on the `arg_count` values from `args_start` on,
    /// then replace the callee and its arguments by the result.
    CallNative { args_start: usize },
    /// Stop with a runtime error.
    Fail { message: String },
}

/// The message of a call with the wrong number of arguments.
pub open spec fn arity_message(arity: nat, arg_count: nat) -> Seq<char> {
    "Expected "@ + decimal(arity) + " arguments but got "@ + decimal(arg_count) + "."@
}

/// The arity that a call of `callee` is checked against, and whether it runs in a
/// new frame: `None` when it does not.
pub open spec fn frame_arity(callee: Callee) -> Option<nat> {
    match callee {
        Callee::Closure { arity } => Some(arity as nat),
        Callee::BoundMethod { arity } => Some(arity as nat),
        Callee::Class { initializer: Some(arity) } => Some(arity as nat),
        _ => None,
    }
}

/// The message of a call that fails, if it does.
pub open spec fn call_failure(callee: Callee, arg_count: u8, frame_count: usize) -> Option<Seq<char>> {
    match frame_arity(callee) {
        Some(arity) => if frame_count >= FRAMES_MAX {
            Some("Stack overflow."@)
        } else if arg_count != arity {
            Some(arity_message(arity, arg_count as nat))
        } else {
            None
        },
        None => match callee {
            Callee::Class { .. } => if arg_count > 0 {
                Some(arity_message(0, arg_count as nat))
            } else {
                None
            },
            Callee::Native => None,
            _ => Some("Can only call functions and classes."@),
        },
    }
}

/// `"Expected {arity} arguments but got {arg_count}."`
fn arity_error(arity: usize, arg_count: u8) -> (s: String)
    ensures
        s@ == arity_message(arity as nat, arg_count as nat),
{
    let mut s = "Expected ".to_owned();
    s = s.concat(decimal_text(arity).as_str());
    s = s.concat(" arguments but got ");
    s = s.concat(decimal_text(arg_count as usize).as_str());
    s.concat(".")
}

/// Decides what a call does: `frame_count` frames are active, and the stack holds
/// `stack_len` values, the last `arg_count` of them the arguments and the one
/// below them the callee. A call that runs in a new frame fails when all frames
/// are taken or when the number of arguments is not the callee's arity; a class
/// without `init` takes no arguments; only closures, bound methods, classes and
/// host functions can be called.
pub fn decide_call(callee: Callee, arg_count: u8, frame_count: usize, stack_len: usize) -> (a: CallAction)
    requires
        arg_count < stack_len,
    ensures
        call_failure(callee, arg_count, frame_count) matches Some(m) ==> (a matches CallAction::Fail {
            message,
        } && message@ == m),
        call_failure(callee, arg_count, frame_count) is None ==> match callee {
            Callee::Native => a == CallAction::CallNative { args_start: (stack_len - arg_count) as usize },
            Callee::Class { initializer: None } => a == CallAction::NewInstance {
                slot: (stack_len - arg_count - 1) as usize,
            },
            _ => a == CallAction::PushFrame { slots_base: (stack_len - arg_count - 1) as usize },
        },
{
    let arity = match callee {
        Callee::Closure { arity } => arity,
        Callee::BoundMethod { arity } => arity,
        Callee::Class { initializer: Some(arity) } => arity,
        Callee::Class { initializer: None } => {
            if arg_count > 0 {
                return CallAction::Fail { message: arity_error(0, arg_count) };
            }
            return CallAction::NewInstance { slot: stack_len - arg_count as usize - 1 };
        },
        Callee::Native => {
            return CallAction::CallNative { args_start: stack_len - arg_count as usize };
        },
        Callee::NotCallable => {
            return CallAction::Fail { message: "Can only call functions and classes.".to_owned() };
        },
    };
    if frame_count >= FRAMES_MAX {
        return CallAction::Fail { message: "Stack overflow.".to_owned() };
    }
    if arg_count as usize != arity {
        return CallAction::Fail { message: arity_error(arity, arg_count) };
    }
    CallAction::PushFrame { slots_base: stack_len - arg_count as usize - 1 }
}

/// Where the open upvalue of a stack slot stands in the list of open upvalues,
/// which runs from the highest slot down.
#[derive(Debug, PartialEq, Eq, Structural, Clone, Copy)]
pub enum UpvalueSlot {
    /// The upvalue of the slot is open at this index.
    Found(usize),
    /// No upvalue of the slot is open; a new one goes in at this index.
    Insert(usize),
}

/// The slots are listed from the highest down, each once.
pub open spec fn descending(locations: Seq<usize>) -> bool {
    forall|i: int, j: int| 0 <= i < j < locations.len() ==> locations[i] > locations[j]
}

/// Looks for the open upvalue of stack slot `location` from the front of
/// `locations`, and stops at the first upvalue of a lower slot: that is where a
/// new upvalue of the slot goes.
pub fn find_open_upvalue(locations: &Vec<usize>, location: usize) -> (r: UpvalueSlot)
    ensures
        r matches UpvalueSlot::Found(i) ==> i < locations@.len() && locations@[i as int] == location,
        r matches UpvalueSlot::Insert(i) ==> i <= locations@.len() && (i < locations@.len()
            ==> locations@[i as int] < location),
        match r {
            UpvalueSlot::Found(i) => forall|j: int| 0 <= j < i ==> locations@[j] > location,
            UpvalueSlot::Insert(i) => forall|j: int| 0 <= j < i ==> locations@[j] > location,
        },
{
    let mut index: usize = 0;
    while index < locations.len()
        invariant
            index <= locations@.len(),
            forall|j: int| 0 <= j < index ==> locations@[j] > location,
        ensures
            index <= locations@.len(),
            forall|j: int| 0 <= j < index ==> locations@[j] > location,
            index < locations@.len() ==> locations@[index as int] < location,
        decreases locations@.len() - index,
    {
        let here = locations[index];
        if here == location {
            return UpvalueSlot::Found(index);
        }
        if here < location {
            break;
        }
        index = index + 1;
    }
    UpvalueSlot::Insert(index)
}

/// In a list that runs from the highest slot down, the slot found is there only
/// once, and a new upvalue put in where the search stopped keeps the order.
pub proof fn lemma_open_upvalues_stay_descending(locations: Seq<usize>, location: usize, r: UpvalueSlot)
    requires
        descending(locations),
        r matches UpvalueSlot::Found(i) ==> i < locations.len() && locations[i as int] == location,
        r matches UpvalueSlot::Insert(i) ==> i <= locations.len() && (i < locations.len()
            ==> locations[i as int] < location),
        match r {
            UpvalueSlot::Found(i) => forall|j: int| 0 <= j < i ==> locations[j] > location,
            UpvalueSlot::Insert(i) => forall|j: int| 0 <= j < i ==> locations[j] > location,
        },
    ensures
        r matches UpvalueSlot::Found(i) ==> forall|j: int|
            0 <= j < locations.len() && j != i ==> locations[j] != location,
        r matches UpvalueSlot::Insert(i) ==> !locations.contains(location) && descending(
            locations.insert(i as int, location),
        ),
{
    if let UpvalueSlot::Insert(i) = r {
        let s = locations.insert(i as int, location);
        assert forall|a: int, b: int| 0 <= a < b < s.len() implies s[a] > s[b] by {
            if b < i {
            } else if b == i {
            } else if a < i {
                assert(s[b] == locations[b - 1]);
                if i < locations.len() {
                    assert(locations[i as int] < location);
                }
            } else if a == i {
                assert(s[b] == locations[b - 1]);
                assert(locations[i as int] < location);
            } else {
                assert(s[a] == locations[a - 1]);
                assert(s[b] == locations[b - 1]);
            }
        }
        assert forall|j: int| 0 <= j < locations.len() implies locations[j] != location by {
            if j >= i {
                assert(locations[i as int] < location);
            }
        }
    }
}

/// How many open upvalues, from the front of `locations`, belong to slots at or
/// above `last`: those close when the frame that owns the slots from `last` up returns.
pub fn open_upvalues_to_close(locations: &Vec<usize>, last: usize) -> (n: usize)
    ensures
        n <= locations@.len(),
        forall|j: int| 0 <= j < n ==> locations@[j] >= last,
        n < locations@.len() ==> locations@[n as int] < last,
{
    let mut n: usize = 0;
    while n < locations.len()
        invariant
            n <= locations@.len(),
            forall|j: int| 0 <= j < n ==> locations@[j] >= last,
        ensures
            n <= locations@.len(),
            forall|j: int| 0 <= j < n ==> locations@[j] >= last,
            n < locations@.len() ==> locations@[n as int] < last,
        decreases locations@.len() - n,
    {
        if locations[n] < last {
            break;
        }
        n = n + 1;
    }
    n
}

/// Where execution goes on after the jump instruction `op`, read up to `ip`, with
/// the distance `distance`: `Jump` goes forward, `JumpIfFalse` goes forward when
/// the value it tests is falsey and on otherwise, `Loop` goes back.
pub open spec fn spec_jump_ip(op: OpCode, ip: int, distance: int, falsey: bool) -> int {
    if op == OpCode::Loop {
        ip - distance
    } else if op == OpCode::JumpIfFalse && !falsey {
        ip
    } else {
        ip + distance
    }
}

/// The instruction pointer after the jump instruction `op`, whose distance bytes
/// are `hi` and `lo`, has been read up to `ip`.
pub fn jump_ip(op: OpCode, ip: usize, hi: u8, lo: u8, falsey: bool) -> (next: usize)
    requires
        op == OpCode::Jump || op == OpCode::JumpIfFalse || op == OpCode::Loop,
        op == OpCode::Loop ==> hi as int * 256 + lo as int <= ip,
        op != OpCode::Loop ==> ip + hi as int * 256 + lo as int <= usize::MAX,
    ensures
        next == spec_jump_ip(op, ip as int, hi as int * 256 + lo as int, falsey),
{
    let distance = hi as usize * 256 + lo as usize;
    match op {
        OpCode::Loop => ip - distance,
        OpCode::JumpIfFalse => if falsey {
            ip + distance
        } else {
            ip
        },
        _ => ip + distance,
    }
}

/// A jump that the machine takes from the instruction at `p` goes where the
/// code says that jump lands.
pub proof fn lemma_jump_ip_lands(code: Seq<u8>, p: int)
    requires
        is_jump_at(code, p),
        p + 3 <= code.len(),
    ensures
        OpCode::spec_from_u8(code[p]) matches Some(op) && spec_jump_ip(
            op,
            p + 3,
            jump_distance(code, p),
            true,
        ) == jump_target(code, p),
{
    lemma_opcode_decode(code[p]);
    lemma_opcode_roundtrip(OpCode::Loop);
}

/// The line of a runtime error's trace for a frame: the source line of the
/// instruction the frame was running, and the function's name.
pub fn trace_line(line: usize, function: &str) -> (s: String)
    ensures
        s@ == "[line "@ + decimal(line as nat) + "] in "@ + function@,
{
    let mut s = "[line ".to_owned();
    s = s.concat(decimal_text(line).as_str());
    s = s.concat("] in ");
    s.concat(function)
}

/// What the machine knows of a value on the stack when it defines a method.
#[derive(Debug, PartialEq, Eq, Structural, Clone, Copy)]
pub enum SlotKind {
    /// A value that is no object.
    NotObject,
    /// A class.
    Class,
    /// A closure.
    Closure,
    /// Any other object.
    OtherObject,
}

/// Decides whether the closure on top of the stack can become a method of the
/// class below it: only a class has methods, and a method is a closure.
pub fn decide_define_method(below: SlotKind, top: SlotKind) -> (r: Result<(), String>)
    ensures
        below == SlotKind::NotObject ==> (r matches Err(m) && m@ == "Only classes have methods."@),
        below != SlotKind::NotObject && below != SlotKind::Class ==> (r matches Err(m) && m@
            == "internal error: Expected a class."@),
        below == SlotKind::Class && top != SlotKind::Closure ==> (r matches Err(m) && m@
            == "internal error: Expected a function."@),
        below == SlotKind::Class && top == SlotKind::Closure ==> r is Ok,
{
    match below {
        SlotKind::NotObject => Err("Only classes have methods.".to_owned()),
        SlotKind::Class => if top == SlotKind::Closure {
            Ok(())
        } else {
            Err("internal error: Expected a function.".to_owned())
        },
        _ => Err("internal error: Expected a class.".to_owned()),
    }
}

} // verus!
