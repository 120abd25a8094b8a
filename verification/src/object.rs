use vstd::prelude::*;

use crate::chunk::Chunk;
use vstd::utf8::encode_utf8;

verus! {

/// The kinds of heap objects of the language.
#[derive(PartialEq, Eq, Structural, Debug, Clone, Copy)]
pub enum ObjType {
    String,
    Function,
    NativeFunction,
    Closure,
    Class,
    Instance,
}

/// A heap object, which knows its kind.
pub trait Obj {
    fn obj_type(&self) -> ObjType;
}

/// The hash that std's `DefaultHasher` gives `bytes` when a hasher made by
/// `DefaultHasher::new()` is fed them with one `write` and then finished.
pub uninterp spec fn default_hash(bytes: Seq<u8>) -> u64;

/// Hashes `bytes` as std's `DefaultHasher` does: `DefaultHasher::new()`, one
/// `write` of the bytes, `finish`. A hasher made by `new` starts from fixed keys,
/// so the result depends on the bytes alone; which number it is, std leaves
/// unsaid, and so does this contract.
#[verifier::external_body]
fn hash_bytes(bytes: &[u8]) -> (h: u64)
    ensures
        h == default_hash(bytes@),
{
    let mut hasher = std::collections::hash_map::DefaultHasher::new();
    std::hash::Hasher::write(&mut hasher, bytes);
    std::hash::Hasher::finish(&hasher)
}

/// A string object, with the hash of its UTF-8 bytes computed once.
#[derive(Clone, Debug, PartialEq, Eq, Hash)]
pub struct ObjString {
    pub string: String,
    pub hash: u64,
}

impl ObjString {
    /// A string object for `string`.
    pub fn new(string: String) -> (o: ObjString)
        ensures
            o.string == string,
            o.hash == default_hash(encode_utf8(string@)),
    {
        let hash = hash_bytes(string.as_str().as_bytes());
        ObjString { string, hash }
    }
}

impl Obj for ObjString {
    fn obj_type(&self) -> (t: ObjType)
        ensures
            t == ObjType::String,
    {
        ObjType::String
    }
}

/// A compiled function: its number of parameters, its code, its name (empty for
/// the top-level script) and how many variables of enclosing functions it captures.
#[derive(Debug)]
pub struct Function {
    pub arity: usize,
    pub chunk: Chunk,
    pub name: String,
    pub upvalue_count: usize,
}

impl Function {
    /// A function with no parameters, no code and no captured variables, named
    /// `name`, or with the empty name when there is none.
    pub fn new(name: Option<String>) -> (f: Function)
        ensures
            f.arity == 0,
            f.upvalue_count == 0,
            f.chunk.code@.len() == 0,
            f.chunk.constants@.len() == 0,
            f.chunk.lines@.len() == 0,
            f.name@ == (match name {
                Some(n) => n@,
                None => Seq::<char>::empty(),
            }),
    {
        let func_name: String;
        if let Some(name) = name {
            func_name = name;
        } else {
            func_name = String::new();
        }
        Function { arity: 0, chunk: Chunk::new(), name: func_name, upvalue_count: 0 }
    }

    /// How the function prints: `<script>` for the top-level script, `<fn name>` otherwise.
    pub fn display_name(&self) -> (s: String)
        ensures
            s@ == (if self.name@.len() == 0 {
                "<script>"@
            } else {
                "<fn "@ + self.name@ + ">"@
            }),
    {
        if self.name.as_str().is_empty() {
            "<script>".to_owned()
        } else {
            let s = "<fn ".to_owned();
            let s = s.concat(self.name.as_str());
            s.concat(">")
        }
    }
}

impl Obj for Function {
    fn obj_type(&self) -> (t: ObjType)
        ensures
            t == ObjType::Function,
    {
        ObjType::Function
    }
}

} // verus!
