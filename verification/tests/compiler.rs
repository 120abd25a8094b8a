use rslox::chunk::{Constant, OpCode};
use rslox::compiler::{compile, CompileError, Compiler, Diagnostic, ErrorLocation, Precedence};
use rslox::object::Function;

fn compiled(source: &str) -> Function {
    match compile(source) {
        Ok(f) => f,
        Err(e) => panic!("did not compile: {:?}", e),
    }
}

fn diagnostics(source: &str) -> Vec<Diagnostic> {
    match compile(source) {
        Err(CompileError::HadErrors(d)) => d,
        other => panic!("expected errors, got {:?}", other),
    }
}

fn number(c: &Constant) -> &str {
    match c {
        Constant::Number(n) => n.as_str(),
        other => panic!("not a number: {:?}", other),
    }
}

fn string(c: &Constant) -> &str {
    match c {
        Constant::Str(s) => s.string.as_str(),
        other => panic!("not a string: {:?}", other),
    }
}

fn function(c: &Constant) -> &Function {
    match c {
        Constant::Function(f) => f,
        other => panic!("not a function: {:?}", other),
    }
}

#[test]
fn empty_source_returns_nil() {
    let f = compiled("");
    assert_eq!(f.chunk.code, vec![OpCode::Nil.u8(), OpCode::Return.u8()]);
    assert!(f.chunk.constants.is_empty());
    assert_eq!(f.name, "");
    assert_eq!(f.arity, 0);
}

#[test]
fn print_addition() {
    let f = compiled("print 1 + 2;");
    assert_eq!(f.chunk.code, vec![0, 0, 0, 1, 7, 13, 1, 14]);
    assert_eq!(f.chunk.lines, vec![1; 8]);
    assert_eq!(number(&f.chunk.constants[0]), "1");
    assert_eq!(number(&f.chunk.constants[1]), "2");
}

#[test]
fn precedence_of_factor_over_term() {
    // 1 + 2 * 3: the multiplication is compiled first.
    let f = compiled("1 + 2 * 3;");
    assert_eq!(f.chunk.code, vec![0, 0, 0, 1, 0, 2, 9, 7, 15, 1, 14]);
}

#[test]
fn comparison_operators_use_not() {
    let f = compiled("1 >= 2;");
    assert_eq!(f.chunk.code, vec![0, 0, 0, 1, 6, 12, 15, 1, 14]);
    let f = compiled("!true != false;");
    assert_eq!(f.chunk.code, vec![2, 12, 3, 4, 12, 15, 1, 14]);
}

#[test]
fn global_variables() {
    let f = compiled("var a = \"hi\"; a = a;");
    // a: constant 0; "hi": constant 1.
    assert_eq!(string(&f.chunk.constants[0]), "a");
    assert_eq!(string(&f.chunk.constants[1]), "hi");
    assert_eq!(f.chunk.code[..4].to_vec(), vec![0, 1, 19, 0]);
    // `a = a;`: GetGlobal then SetGlobal then Pop.
    assert_eq!(f.chunk.code[4..].to_vec(), vec![18, 3, 20, 2, 15, 1, 14]);
}

#[test]
fn local_variables_in_block() {
    let f = compiled("{ var a = 1; print a; }");
    assert_eq!(f.chunk.code, vec![0, 0, 16, 1, 13, 15, 1, 14]);
}

#[test]
fn if_statement_patches_jumps() {
    let f = compiled("if (true) print 1;");
    assert_eq!(f.chunk.code, vec![2, 27, 0, 7, 15, 0, 0, 13, 26, 0, 1, 15, 1, 14]);
}

#[test]
fn while_loop_jumps_back_to_condition() {
    let f = compiled("while (false) print 1;");
    assert_eq!(f.chunk.code, vec![3, 27, 0, 7, 15, 0, 0, 13, 28, 0, 11, 15, 1, 14]);
}

#[test]
fn function_declaration() {
    let f = compiled("fun f() { return 1; }");
    assert_eq!(string(&f.chunk.constants[0]), "f");
    let inner = function(&f.chunk.constants[1]);
    assert_eq!(inner.name, "f");
    assert_eq!(inner.arity, 0);
    assert_eq!(inner.chunk.code, vec![0, 0, 14, 1, 14]);
    assert_eq!(f.chunk.code, vec![32, 1, 19, 0, 1, 14]);
}

#[test]
fn closure_captures_enclosing_local() {
    let f = compiled("fun o() { var x = 1; fun i() { return x; } }");
    let o = function(&f.chunk.constants[1]);
    assert_eq!(o.chunk.code, vec![0, 0, 32, 1, 1, 1, 1, 14]);
    let i = function(&o.chunk.constants[1]);
    assert_eq!(i.upvalue_count, 1);
    assert_eq!(i.chunk.code, vec![23, 0, 14, 1, 14]);
}

#[test]
fn parameters_count_arity() {
    let f = compiled("fun add(a, b, c) { return a + b; }");
    let add = function(&f.chunk.constants[1]);
    assert_eq!(add.arity, 3);
    assert_eq!(add.chunk.code, vec![16, 1, 16, 2, 7, 14, 1, 14]);
}

#[test]
fn missing_expression_is_reported_once() {
    assert_eq!(
        diagnostics("print;"),
        vec![Diagnostic {
            line: 1,
            location: ErrorLocation::AtLexeme(";".to_string()),
            message: "Expect expression.".to_string(),
        }]
    );
}

#[test]
fn lexical_error_never_compiles() {
    assert_eq!(
        diagnostics("\"abc"),
        vec![Diagnostic {
            line: 1,
            location: ErrorLocation::AtScanError,
            message: "Unterminated string.".to_string(),
        }]
    );
    let d = diagnostics("print 1 @;");
    assert_eq!(d[0].message, "Unexpected character.");
}

#[test]
fn error_at_end_of_source() {
    assert_eq!(
        diagnostics("print 1"),
        vec![Diagnostic {
            line: 1,
            location: ErrorLocation::AtEnd,
            message: "Expect ';' after value.".to_string(),
        }]
    );
}

#[test]
fn recovers_after_error_at_statement_boundary() {
    let d = diagnostics("print ; print ;");
    assert_eq!(d.len(), 2);
}

#[test]
fn return_at_top_level_is_an_error() {
    let d = diagnostics("return 1;");
    assert_eq!(d[0].message, "Cannot return from top-level code.");
}

#[test]
fn this_outside_class_is_an_error() {
    let d = diagnostics("print this;");
    assert_eq!(d[0].message, "Cannot use 'this' outside of a class.");
}

#[test]
fn class_cannot_inherit_from_itself() {
    let d = diagnostics("class A < A {}");
    assert_eq!(d[0].message, "A class can't inherit from itself.");
}

#[test]
fn class_with_method_and_superclass() {
    let f = compiled("class B {} class A < B { init() { super.init(); } }");
    assert_eq!(f.chunk.code.last(), Some(&14));
}

#[test]
fn compiler_runs_only_once() {
    let mut c = Compiler::new("print 1;");
    assert!(c.compile().is_ok());
    assert_eq!(c.compile().unwrap_err(), CompileError::AlreadyRan);
}

#[test]
fn precedence_next() {
    assert_eq!(Precedence::Assignment.next(), Precedence::Or);
    assert_eq!(Precedence::Term.next(), Precedence::Factor);
    assert_eq!(Precedence::Call.next(), Precedence::Primary);
    assert_eq!(Precedence::Primary.next(), Precedence::Lowest);
    assert_eq!(Precedence::Lowest.next(), Precedence::Assignment);
}

/// The length of the instruction at `offset`, read the way the machine reads it.
fn instruction_length(code: &[u8], constants: &[Constant], offset: usize) -> usize {
    let op = OpCode::from_u8(code[offset]).expect("an instruction byte");
    match op {
        OpCode::Constant | OpCode::GetGlobal | OpCode::DefineGlobal | OpCode::SetGlobal
        | OpCode::GetProperty | OpCode::SetProperty | OpCode::GetSuper | OpCode::Class
        | OpCode::Method | OpCode::GetLocal | OpCode::SetLocal | OpCode::GetUpvalue
        | OpCode::SetUpvalue | OpCode::Call => 2,
        OpCode::Jump | OpCode::JumpIfFalse | OpCode::Loop | OpCode::Invoke
        | OpCode::SuperInvoke => 3,
        OpCode::Closure => 2 + 2 * function(&constants[code[offset + 1] as usize]).upvalue_count,
        _ => 1,
    }
}

/// Walks the code from the start and checks that it ends exactly at its end, that
/// every constant operand names a constant, that every captured variable named is
/// one the function has, that every jump lands where an instruction starts, and
/// that the same holds of every function among the constants.
fn walks_to_end(f: &Function) {
    let code = &f.chunk.code;
    let constants = &f.chunk.constants;
    let mut starts = Vec::new();
    let mut offset = 0;
    while offset < code.len() {
        starts.push(offset);
        let op = OpCode::from_u8(code[offset]).expect("an instruction byte");
        match op {
            OpCode::Constant | OpCode::GetGlobal | OpCode::DefineGlobal | OpCode::SetGlobal
            | OpCode::GetProperty | OpCode::SetProperty | OpCode::GetSuper | OpCode::Class
            | OpCode::Method | OpCode::Invoke | OpCode::SuperInvoke | OpCode::Closure => {
                assert!((code[offset + 1] as usize) < constants.len());
            }
            OpCode::GetUpvalue | OpCode::SetUpvalue => {
                assert!((code[offset + 1] as usize) < f.upvalue_count);
            }
            _ => {}
        }
        if op == OpCode::Closure {
            let captured = function(&constants[code[offset + 1] as usize]).upvalue_count;
            for i in 0..captured {
                let is_local = code[offset + 2 + 2 * i];
                assert!(is_local <= 1);
                if is_local == 0 {
                    assert!((code[offset + 3 + 2 * i] as usize) < f.upvalue_count);
                }
            }
        }
        offset += instruction_length(code, constants, offset);
    }
    assert_eq!(offset, code.len());
    starts.push(code.len());
    for &start in starts.iter() {
        if start == code.len() {
            continue;
        }
        let d = f.chunk.disassemble_instruction(start);
        assert_eq!(d.offset, start);
        assert_eq!(d.byte, code[start]);
        let op = OpCode::from_u8(code[start]).unwrap();
        assert_eq!(d.op, Some(op));
        let forward = match op {
            OpCode::Jump | OpCode::JumpIfFalse => true,
            OpCode::Loop => false,
            _ => continue,
        };
        let distance = (code[start + 1] as usize) * 256 + code[start + 2] as usize;
        let target = if forward { start + 3 + distance } else { start + 3 - distance };
        assert!(starts.contains(&target), "jump at {} lands at {}", start, target);
    }
    for c in constants.iter() {
        if let Constant::Function(inner) = c {
            walks_to_end(inner);
        }
    }
}

#[test]
fn compiled_code_is_whole_instructions_and_jumps_land() {
    let sources = [
        "print 1 + 2 * 3;",
        "var a = 1; { var b = a; a = b; } if (a) print a; else print 2;",
        "for (var i = 0; i < 10; i = i + 1) { if (i > 5 and i != 7 or false) print i; }",
        "while (true) { var x = nil; x = !x; }",
        "fun outer(p) { var l = p; fun inner() { return l + p; } return inner; } print outer(1)();",
        "class A { init(x) { this.x = x; } get() { return this.x; } } \
         class B < A { get() { return super.get() + 1; } } \
         var b = B(1); print b.get(); b.x = 2; print b.x;",
        "fun count(n) { while (n > 0) { n = n - 1; } for (;;) { return n; } } print count(3);",
        "for (var i = 0; i < 3;) { i = i + 1; } for (; false; ) {}",
        "fun a() { var x = 1; var y = 2; fun b() { fun c() { return x + y; } y = x; return c; } return b; }",
    ];
    for source in sources.iter() {
        walks_to_end(&compiled(source));
    }
}

fn first_diagnostic(source: &str) -> Diagnostic {
    diagnostics(source).remove(0)
}

fn at(lexeme: &str, message: &str) -> Diagnostic {
    Diagnostic {
        line: 1,
        location: ErrorLocation::AtLexeme(lexeme.to_string()),
        message: message.to_string(),
    }
}

#[test]
fn too_many_constants() {
    let source: String = (0..257).map(|i| format!("print {};", i)).collect();
    assert_eq!(diagnostics(&source), vec![at("256", "Too many constants in one chunk.")]);
    let source: String = (0..256).map(|i| format!("print {};", i)).collect();
    let f = compiled(&source);
    assert_eq!(f.chunk.constants.len(), 256);
    walks_to_end(&f);
}

#[test]
fn too_many_locals_and_parameters() {
    let source: String = format!(
        "{{ {} }}",
        (0..255).map(|i| format!("var v{};", i)).collect::<Vec<_>>().join(" ")
    );
    assert_eq!(first_diagnostic(&source), at("v254", "Too many local variables in function."));
    let params: Vec<String> = (0..256).map(|i| format!("p{}", i)).collect();
    let source = format!("fun f({}) {{}}", params.join(", "));
    assert_eq!(first_diagnostic(&source), at("p254", "Too many local variables in function."));
    let params: Vec<String> = (0..254).map(|i| format!("p{}", i)).collect();
    let source = format!("fun f({}) {{}}", params.join(", "));
    let f = compiled(&source);
    assert_eq!(function(&f.chunk.constants[1]).arity, 254);
}

#[test]
fn too_many_arguments() {
    let args = vec!["a"; 256].join(", ");
    let source = format!("fun g() {{ var a; a({}); }}", args);
    assert_eq!(first_diagnostic(&source), at("a", "Can't have more than 255 arguments."));
    let args = vec!["a"; 255].join(", ");
    let source = format!("fun g() {{ var a; a({}); }}", args);
    walks_to_end(&compiled(&source));
}

#[test]
fn variable_scoping_errors() {
    assert_eq!(
        first_diagnostic("{ var a; var a; }"),
        at("a", "Already a variable with this name in this scope.")
    );
    assert_eq!(
        first_diagnostic("{ var a = a; }"),
        at("a", "Can't read local variable in its own initializer.")
    );
    assert_eq!(first_diagnostic("1 = 2;"), at("=", "Invalid assignment target"));
}

#[test]
fn class_errors() {
    assert_eq!(
        first_diagnostic("class A { init() { return 1; } }"),
        at("return", "Can't return a value from an initializer.")
    );
    assert_eq!(
        first_diagnostic("print super.x;"),
        at("super", "Cannot use 'super' outside of a class.")
    );
    assert_eq!(
        first_diagnostic("class A { f() { super.f(); } }"),
        at("super", "Cannot use 'super' in a class with no superclass.")
    );
}

#[test]
fn jumps_too_long() {
    let body = "a; ".repeat(21846);
    let source = format!("{{ var a; while (false) {{ {} }} }}", body);
    assert_eq!(first_diagnostic(&source), at("}", "Loop body too large."));
    let source = format!("{{ var a; if (false) {{ {} }} }}", body);
    assert_eq!(first_diagnostic(&source), at("}", "Too much code to jump over."));
    let body = "a; ".repeat(21000);
    let source = format!("{{ var a; while (false) {{ {} }} }}", body);
    walks_to_end(&compiled(&source));
}

#[test]
fn diagnostics_render_as_reported() {
    assert_eq!(
        at(";", "Expect expression.").render(),
        "[line 1] Error at ';': Expect expression."
    );
    let at_end = Diagnostic {
        line: 120,
        location: ErrorLocation::AtEnd,
        message: "Expect ';' after value.".to_string(),
    };
    assert_eq!(at_end.render(), "[line 120] Error at end: Expect ';' after value.");
    let scan_error = Diagnostic {
        line: 0,
        location: ErrorLocation::AtScanError,
        message: "Unterminated string.".to_string(),
    };
    assert_eq!(scan_error.render(), "[line 0] Error: Unterminated string.");
    let d = diagnostics("print 1 +;\n\nprint");
    let rendered: Vec<String> = d.iter().map(|d| d.render()).collect();
    assert_eq!(
        rendered,
        vec![
            "[line 1] Error at ';': Expect expression.".to_string(),
            "[line 3] Error at end: Expect expression.".to_string(),
        ]
    );
}

#[test]
fn compile_errors_describe_themselves() {
    assert_eq!(CompileError::AlreadyRan.describe(), "Compiler can only be used once");
    assert_eq!(CompileError::HadErrors(Vec::new()).describe(), "Had compilation errors");
}

fn ops(code: &[OpCode]) -> Vec<u8> {
    code.iter().map(|op| op.u8()).collect()
}

#[test]
fn inner_declaration_shadows_outer() {
    let f = compiled("{ var a = 1; { var a = 2; print a; } }");
    let mut expected = ops(&[OpCode::Constant]);
    expected.push(0);
    expected.push(OpCode::Constant.u8());
    expected.push(1);
    expected.push(OpCode::GetLocal.u8());
    expected.push(2);
    expected.extend(ops(&[OpCode::Print, OpCode::Pop, OpCode::Pop, OpCode::Nil, OpCode::Return]));
    assert_eq!(f.chunk.code, expected);
}

#[test]
fn subtraction_is_left_associative() {
    let f = compiled("print 1 - 2 - 3;");
    let c = OpCode::Constant.u8();
    let sub = OpCode::Subtract.u8();
    assert_eq!(
        f.chunk.code,
        vec![c, 0, c, 1, sub, c, 2, sub, OpCode::Print.u8(), OpCode::Nil.u8(), OpCode::Return.u8()]
    );
}

#[test]
fn for_loop_body_jumps_back_to_increment() {
    let f = compiled("for (var i = 0; i < 3; i = i + 1) print i;");
    let get = OpCode::GetLocal.u8();
    let c = OpCode::Constant.u8();
    let expected = vec![
        c, 0, // var i = 0
        get, 1, c, 1, OpCode::Less.u8(), // i < 3, at 2
        OpCode::JumpIfFalse.u8(), 0, 21, OpCode::Pop.u8(),
        OpCode::Jump.u8(), 0, 11, // over the increment
        get, 1, c, 2, OpCode::Add.u8(), OpCode::SetLocal.u8(), 1, OpCode::Pop.u8(), // at 14
        OpCode::Loop.u8(), 0, 23, // back to the condition
        get, 1, OpCode::Print.u8(), // the body, at 25
        OpCode::Loop.u8(), 0, 17, // back to the increment
        OpCode::Pop.u8(), OpCode::Pop.u8(), OpCode::Nil.u8(), OpCode::Return.u8(),
    ];
    assert_eq!(f.chunk.code, expected);
}

#[test]
fn subclass_inherits_after_loading_both_classes() {
    let f = compiled("class B {} class A < B {}");
    let code = &f.chunk.code;
    // `class B {}` takes 7 bytes: Class, DefineGlobal, GetGlobal, Pop.
    assert_eq!(code[7], OpCode::Class.u8());
    assert_eq!(code[9], OpCode::DefineGlobal.u8());
    assert_eq!(code[11], OpCode::GetGlobal.u8());
    assert_eq!(code[13], OpCode::GetGlobal.u8());
    assert_eq!(code[15], OpCode::Inherit.u8());
}

#[test]
fn unary_grouping_and_comparison_code() {
    let f = compiled("print -(1 + 2) * 3 <= 4; !nil;");
    let c = OpCode::Constant.u8();
    let expected = vec![
        c, 0, c, 1, OpCode::Add.u8(), OpCode::Negate.u8(), c, 2, OpCode::Multiply.u8(),
        c, 3, OpCode::Greater.u8(), OpCode::Not.u8(), OpCode::Print.u8(),
        OpCode::Nil.u8(), OpCode::Not.u8(), OpCode::Pop.u8(),
        OpCode::Nil.u8(), OpCode::Return.u8(),
    ];
    assert_eq!(f.chunk.code, expected);
    assert_eq!(f.chunk.constants.len(), 4);
    assert_eq!(number(&f.chunk.constants[3]), "4");
}

#[test]
fn assignment_to_an_operator_result_is_an_error() {
    assert_eq!(first_diagnostic("1 + 2 = 3;"), at("=", "Invalid assignment target"));
}
