use rslox::chunk::{Chunk, Constant, OpCode, OPCODE_COUNT};
use rslox::object::{Function, Obj, ObjString, ObjType};
use rslox::vm::{LoxError, LoxErrorKind, Options};

const ALL: [OpCode; 37] = [
    OpCode::Constant,
    OpCode::Nil,
    OpCode::True,
    OpCode::False,
    OpCode::Equal,
    OpCode::Greater,
    OpCode::Less,
    OpCode::Add,
    OpCode::Subtract,
    OpCode::Multiply,
    OpCode::Divide,
    OpCode::Negate,
    OpCode::Not,
    OpCode::Print,
    OpCode::Return,
    OpCode::Pop,
    OpCode::GetLocal,
    OpCode::SetLocal,
    OpCode::GetGlobal,
    OpCode::DefineGlobal,
    OpCode::SetGlobal,
    OpCode::GetProperty,
    OpCode::SetProperty,
    OpCode::GetUpvalue,
    OpCode::SetUpvalue,
    OpCode::GetSuper,
    OpCode::Jump,
    OpCode::JumpIfFalse,
    OpCode::Loop,
    OpCode::Call,
    OpCode::Invoke,
    OpCode::SuperInvoke,
    OpCode::Closure,
    OpCode::CloseUpvalue,
    OpCode::Class,
    OpCode::Inherit,
    OpCode::Method,
];

#[test]
fn opcode_numbers_roundtrip() {
    for (i, op) in ALL.iter().enumerate() {
        assert_eq!(op.u8() as usize, i);
        assert_eq!(OpCode::from_u8(op.u8()), Some(*op));
    }
    assert_eq!(OPCODE_COUNT as usize, ALL.len());
}

#[test]
fn opcode_unknown_bytes() {
    for b in OPCODE_COUNT..=255 {
        assert_eq!(OpCode::from_u8(b), None);
    }
    assert_eq!(OpCode::Constant.u8(), 0);
    assert_eq!(OpCode::Return.u8(), 14);
    assert_eq!(OpCode::Method.u8(), 36);
}

#[test]
fn chunk_write_and_constants() {
    let mut chunk = Chunk::new();
    assert!(chunk.code.is_empty() && chunk.constants.is_empty() && chunk.lines.is_empty());
    chunk.write_chunk(OpCode::Nil.u8(), 3);
    chunk.write_chunk(OpCode::Return.u8(), 4);
    assert_eq!(chunk.code, vec![1, 14]);
    assert_eq!(chunk.lines, vec![3, 4]);
    assert_eq!(chunk.add_constant(Constant::Number("1.5".to_string())), 0);
    assert_eq!(chunk.add_constant(Constant::Str(ObjString::new("s".to_string()))), 1);
    assert_eq!(chunk.constants.len(), 2);
}

#[test]
fn obj_string_hash_depends_on_text() {
    let a = ObjString::new("hello".to_string());
    let b = ObjString::new("hello".to_string());
    let c = ObjString::new("world".to_string());
    assert_eq!(a, b);
    assert_eq!(a.hash, b.hash);
    assert_eq!(a.string, "hello");
    assert_ne!(a, c);
    assert_eq!(a.obj_type(), ObjType::String);
}

fn default_hash(bytes: &[u8]) -> u64 {
    let mut hasher = std::collections::hash_map::DefaultHasher::new();
    std::hash::Hasher::write(&mut hasher, bytes);
    std::hash::Hasher::finish(&hasher)
}

#[test]
fn obj_string_hash_is_default_hash_of_utf8_bytes() {
    assert_eq!(ObjString::new(String::new()).hash, default_hash(&[]));
    assert_eq!(ObjString::new("a".to_string()).hash, default_hash(b"a"));
    assert_ne!(ObjString::new("a".to_string()).hash, ObjString::new("b".to_string()).hash);
    assert_eq!(ObjString::new("foobar".to_string()).hash, default_hash(b"foobar"));
    // Two bytes of UTF-8 for one character.
    assert_eq!(ObjString::new("\u{e9}".to_string()).hash, default_hash(&[0xc3, 0xa9]));
}

#[test]
fn function_new_and_display() {
    let script = Function::new(None);
    assert_eq!(script.arity, 0);
    assert_eq!(script.upvalue_count, 0);
    assert!(script.chunk.code.is_empty());
    assert_eq!(script.name, "");
    assert_eq!(script.display_name(), "<script>");
    let f = Function::new(Some("fib".to_string()));
    assert_eq!(f.name, "fib");
    assert_eq!(f.display_name(), "<fn fib>");
    assert_eq!(f.obj_type(), ObjType::Function);
}

#[test]
fn lox_error_new() {
    let e = LoxError::new(LoxErrorKind::RuntimeError, "Stack overflow.");
    assert_eq!(e.kind, LoxErrorKind::RuntimeError);
    assert_eq!(e.message, "Stack overflow.");
    assert!(!Options::default().trace_execution);
}
