# rslox

A compiler for the Lox language to a stack-machine bytecode, verified with Verus,
and a virtual machine that runs the bytecode.

- `src/scanner.rs` — the scanner. `spec_scan` states, over the source as a
  sequence of characters, which token is read from a position and where the
  scanner stands after it; `Scanner::scan_token` is proved to follow it.
- `src/chunk.rs` — the instruction set (`OpCode`, with its byte encoding and
  decoding), chunks of bytecode, the disassembly of one instruction, and the
  layout of instructions: how long each is, when code is a sequence of whole
  instructions (`decodes`), where a jump lands (`jump_target`), and when a
  function and the functions among its constants are well formed (`function_ok`).
- `src/object.rs` — string objects and compiled functions.
- `src/compiler.rs` — the single-pass Pratt compiler. For sources made of `print`
  and expression statements over numbers, `true`, `false`, `nil`, unary and
  binary operators and parentheses, `spec_script` states the exact code and
  constants, and `compile` is proved to succeed with them. It is proved to terminate
  on every source, never to panic or overflow, to keep a line for every byte of
  code, to compile only sources without lexical errors, and to produce only
  well-formed code: whole instructions whose operands name existing constants
  and captured variables, whose closures carry one operand pair per captured
  variable, and whose jumps land where an instruction starts.
- `src/vm.rs` — run options, runtime errors, and what the virtual machine
  decides without looking at values: what a call does (`decide_call`: a new
  frame, a new instance, a host call, or the error it stops with), where an
  open upvalue is found or goes (`find_open_upvalue`), whether a method can be
  defined (`decide_define_method`) and how many close when
  a frame returns, where a jump goes (`jump_ip`, proved to land where the
  compiled code says the jump lands), and the lines of a runtime error's trace.
- `app/` — the command line, the REPL, and the rest of the virtual machine,
  which works on floating-point values and shared objects and is not verified.
