use vstd::prelude::*;

pub mod chunk;
pub mod compiler;
pub mod object;
pub mod scanner;
pub mod vm;

verus! {
}
