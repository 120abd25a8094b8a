use rslox::chunk::OpCode;
use rslox::vm::{
    decide_call, find_open_upvalue, jump_ip, open_upvalues_to_close, CallAction, Callee, UpvalueSlot,
    FRAMES_MAX, trace_line, decide_define_method, SlotKind,
};

fn fail(message: &str) -> CallAction {
    CallAction::Fail { message: message.to_string() }
}

#[test]
fn closure_call_pushes_frame_at_callee_slot() {
    // Stack: [script, f, a, b]: the frame starts at the callee, slot 1.
    let a = decide_call(Callee::Closure { arity: 2 }, 2, 1, 4);
    assert_eq!(a, CallAction::PushFrame { slots_base: 1 });
}

#[test]
fn wrong_argument_count_is_an_error() {
    assert_eq!(
        decide_call(Callee::Closure { arity: 2 }, 1, 1, 3),
        fail("Expected 2 arguments but got 1.")
    );
    assert_eq!(
        decide_call(Callee::BoundMethod { arity: 0 }, 12, 3, 20),
        fail("Expected 0 arguments but got 12.")
    );
}

#[test]
fn too_many_frames_is_a_stack_overflow() {
    assert_eq!(decide_call(Callee::Closure { arity: 0 }, 0, FRAMES_MAX, 10), fail("Stack overflow."));
    // The overflow is found before the arity.
    assert_eq!(decide_call(Callee::Closure { arity: 3 }, 0, FRAMES_MAX, 10), fail("Stack overflow."));
    assert_eq!(
        decide_call(Callee::Closure { arity: 0 }, 0, FRAMES_MAX - 1, 10),
        CallAction::PushFrame { slots_base: 9 }
    );
}

#[test]
fn class_calls() {
    assert_eq!(
        decide_call(Callee::Class { initializer: None }, 0, 1, 2),
        CallAction::NewInstance { slot: 1 }
    );
    assert_eq!(
        decide_call(Callee::Class { initializer: None }, 2, 1, 4),
        fail("Expected 0 arguments but got 2.")
    );
    assert_eq!(
        decide_call(Callee::Class { initializer: Some(1) }, 1, 1, 3),
        CallAction::PushFrame { slots_base: 1 }
    );
    assert_eq!(
        decide_call(Callee::Class { initializer: Some(1) }, 0, 1, 3),
        fail("Expected 1 arguments but got 0.")
    );
}

#[test]
fn native_and_uncallable_values() {
    assert_eq!(decide_call(Callee::Native, 2, 1, 5), CallAction::CallNative { args_start: 3 });
    // A host function needs no frame, so a full frame stack does not stop it.
    assert_eq!(decide_call(Callee::Native, 0, FRAMES_MAX, 1), CallAction::CallNative { args_start: 1 });
    assert_eq!(
        decide_call(Callee::NotCallable, 0, 1, 1),
        fail("Can only call functions and classes.")
    );
}

#[test]
fn open_upvalue_search() {
    let open = vec![9, 7, 4];
    assert_eq!(find_open_upvalue(&open, 7), UpvalueSlot::Found(1));
    assert_eq!(find_open_upvalue(&open, 10), UpvalueSlot::Insert(0));
    assert_eq!(find_open_upvalue(&open, 5), UpvalueSlot::Insert(2));
    assert_eq!(find_open_upvalue(&open, 1), UpvalueSlot::Insert(3));
    assert_eq!(find_open_upvalue(&[].to_vec(), 1), UpvalueSlot::Insert(0));
}

#[test]
fn upvalues_closed_when_frame_returns() {
    let open = vec![9, 7, 4];
    assert_eq!(open_upvalues_to_close(&open, 5), 2);
    assert_eq!(open_upvalues_to_close(&open, 4), 3);
    assert_eq!(open_upvalues_to_close(&open, 10), 0);
    assert_eq!(open_upvalues_to_close(&Vec::new(), 0), 0);
}

#[test]
fn jumps_move_the_instruction_pointer() {
    assert_eq!(jump_ip(OpCode::Jump, 10, 1, 2, false), 10 + 258);
    assert_eq!(jump_ip(OpCode::JumpIfFalse, 10, 0, 7, true), 17);
    assert_eq!(jump_ip(OpCode::JumpIfFalse, 10, 0, 7, false), 10);
    assert_eq!(jump_ip(OpCode::Loop, 30, 0, 23, false), 7);
}

#[test]
fn compiled_loop_jumps_back_to_its_condition() {
    // `while (false) print 1;`: the Loop at 8 reads up to 11 and goes back by 11.
    let f = rslox::compiler::compile("while (false) print 1;").unwrap();
    let code = &f.chunk.code;
    assert_eq!(code[8], OpCode::Loop.u8());
    assert_eq!(jump_ip(OpCode::Loop, 11, code[9], code[10], false), 0);
    assert_eq!(code[1], OpCode::JumpIfFalse.u8());
    assert_eq!(jump_ip(OpCode::JumpIfFalse, 4, code[2], code[3], true), 11);
    assert_eq!(code[11], OpCode::Pop.u8());
}

#[test]
fn trace_names_line_and_function() {
    assert_eq!(trace_line(12, "<fn add>"), "[line 12] in <fn add>");
    assert_eq!(trace_line(0, "script"), "[line 0] in script");
}

#[test]
fn methods_go_only_on_classes() {
    assert_eq!(decide_define_method(SlotKind::Class, SlotKind::Closure), Ok(()));
    assert_eq!(
        decide_define_method(SlotKind::NotObject, SlotKind::Closure),
        Err("Only classes have methods.".to_string())
    );
    assert_eq!(
        decide_define_method(SlotKind::Closure, SlotKind::Closure),
        Err("internal error: Expected a class.".to_string())
    );
    assert_eq!(
        decide_define_method(SlotKind::Class, SlotKind::NotObject),
        Err("internal error: Expected a function.".to_string())
    );
}
