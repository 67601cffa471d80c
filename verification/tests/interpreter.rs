//! End-to-end tests: source text in, printed lines and outcomes out.

use lox_vm::vm::{InterpretResult, RuntimeFault, VM};

const FUEL: u64 = 1_000_000;

fn run_ok(vm: &mut VM, src: &str) -> Vec<String> {
    let r = vm.interpret(src, FUEL);
    assert!(
        matches!(r, InterpretResult::Success),
        "expected success on {:?}",
        src
    );
    vm.output
        .iter()
        .map(|b| String::from_utf8(b.clone()).unwrap())
        .collect()
}

fn run_outcome(src: &str) -> InterpretResult {
    let mut vm = VM::new();
    vm.interpret(src, FUEL)
}

#[test]
fn literal_arithmetic_precedence() {
    let mut vm = VM::new();
    assert_eq!(run_ok(&mut vm, "print 1 + 2 * 3;"), vec!["7"]);
    assert!(vm.stack.is_empty());
}

#[test]
fn grouping_overrides_precedence() {
    let mut vm = VM::new();
    assert_eq!(run_ok(&mut vm, "print (1 + 2) * 3;"), vec!["9"]);
}

#[test]
fn subtraction_is_left_associative() {
    let mut vm = VM::new();
    assert_eq!(run_ok(&mut vm, "print 10 - 2 - 3;"), vec!["5"]);
}

#[test]
fn division_truncates() {
    let mut vm = VM::new();
    assert_eq!(run_ok(&mut vm, "print 7 / 2;"), vec!["3"]);
}

#[test]
fn unary_negation() {
    let mut vm = VM::new();
    assert_eq!(run_ok(&mut vm, "print -(1 + 2);"), vec!["-3"]);
}

#[test]
fn negative_rendering() {
    let mut vm = VM::new();
    assert_eq!(run_ok(&mut vm, "print 0 - 123;"), vec!["-123"]);
}

#[test]
fn smallest_number_renders() {
    let mut vm = VM::new();
    assert_eq!(
        run_ok(&mut vm, "print 0 - 9223372036854775807 - 1;"),
        vec!["-9223372036854775808"]
    );
}

#[test]
fn global_round_trip() {
    let mut vm = VM::new();
    assert_eq!(run_ok(&mut vm, "var x = 5; print x;"), vec!["5"]);
    assert_eq!(run_ok(&mut vm, "x = x + 1; print x;"), vec!["6"]);
    assert!(vm.stack.is_empty());
}

#[test]
fn undefined_global_read_is_runtime_fault() {
    let r = run_outcome("print y;");
    match r {
        InterpretResult::RuntimeError(f) => {
            assert!(matches!(f, RuntimeFault::UndefinedVariable { .. }));
            assert_eq!(f.message(), "Undefined variable.");
        }
        _ => panic!("expected a runtime fault"),
    }
}

#[test]
fn undefined_global_write_is_runtime_fault() {
    let r = run_outcome("y = 1;");
    assert!(matches!(
        r,
        InterpretResult::RuntimeError(RuntimeFault::UndefinedVariable { .. })
    ));
}

#[test]
fn redefining_a_global_overwrites() {
    let mut vm = VM::new();
    assert_eq!(
        run_ok(&mut vm, "var x = 1; var x = 2; print x;"),
        vec!["2"]
    );
}

#[test]
fn string_concatenation() {
    let mut vm = VM::new();
    assert_eq!(run_ok(&mut vm, "print \"a\" + \"b\";"), vec!["ab"]);
}

#[test]
fn string_number_mix_is_type_mismatch() {
    let r = run_outcome("print \"a\" + 1;");
    match r {
        InterpretResult::RuntimeError(f) => {
            assert!(matches!(f, RuntimeFault::TypeMismatch { .. }));
            assert_eq!(f.message(), "Operands must be two numbers or two strings.");
        }
        _ => panic!("expected a type mismatch"),
    }
}

#[test]
fn comparison_on_strings_is_type_mismatch() {
    let r = run_outcome("print \"a\" < \"b\";");
    assert!(matches!(
        r,
        InterpretResult::RuntimeError(RuntimeFault::TypeMismatch { .. })
    ));
}

#[test]
fn short_circuit_and_skips_side_effect() {
    let mut vm = VM::new();
    let out = run_ok(&mut vm, "var hit = 0; false and (hit = 1); print hit;");
    assert_eq!(out, vec!["0"]);
}

#[test]
fn and_evaluates_right_when_left_truthy() {
    let mut vm = VM::new();
    let out = run_ok(&mut vm, "var hit = 0; true and (hit = 1); print hit;");
    assert_eq!(out, vec!["1"]);
}

#[test]
fn short_circuit_or_skips_side_effect() {
    let mut vm = VM::new();
    let out = run_ok(&mut vm, "var hit = 0; true or (hit = 1); print hit;");
    assert_eq!(out, vec!["0"]);
}

#[test]
fn or_evaluates_right_when_left_falsy() {
    let mut vm = VM::new();
    let out = run_ok(&mut vm, "var hit = 0; nil or (hit = 1); print hit;");
    assert_eq!(out, vec!["1"]);
}

#[test]
fn while_loop_counts() {
    let mut vm = VM::new();
    let out = run_ok(
        &mut vm,
        "var i = 0; while (i < 3) { print i; i = i + 1; }",
    );
    assert_eq!(out, vec!["0", "1", "2"]);
    assert!(vm.stack.is_empty());
}

#[test]
fn for_loop_counts() {
    let mut vm = VM::new();
    let out = run_ok(&mut vm, "for (var j = 0; j < 3; j = j + 1) { print j; }");
    assert_eq!(out, vec!["0", "1", "2"]);
    assert!(vm.stack.is_empty());
}

#[test]
fn if_else_branches() {
    let mut vm = VM::new();
    assert_eq!(
        run_ok(&mut vm, "if (1 < 2) { print \"yes\"; } else { print \"no\"; }"),
        vec!["yes"]
    );
    let mut vm2 = VM::new();
    assert_eq!(
        run_ok(&mut vm2, "if (2 < 1) { print \"yes\"; } else { print \"no\"; }"),
        vec!["no"]
    );
}

#[test]
fn duplicate_local_in_one_block_is_compile_error() {
    let r = run_outcome("{ var a = 1; var a = 2; }");
    match r {
        InterpretResult::CompileError(ds) => {
            assert!(ds
                .iter()
                .any(|d| d.message() == "Already a variable with this name in this scope."));
        }
        _ => panic!("expected a compile error"),
    }
}

#[test]
fn same_name_in_sibling_blocks_is_fine() {
    let mut vm = VM::new();
    let out = run_ok(&mut vm, "{ var a = 1; print a; } { var a = 2; print a; }");
    assert_eq!(out, vec!["1", "2"]);
    assert!(vm.stack.is_empty());
}

#[test]
fn inner_local_shadows_outer() {
    let mut vm = VM::new();
    let out = run_ok(&mut vm, "var a = 1; { var a = 2; print a; } print a;");
    assert_eq!(out, vec!["2", "1"]);
}

#[test]
fn locals_assign_and_read() {
    let mut vm = VM::new();
    let out = run_ok(&mut vm, "{ var a = 1; a = a + 41; print a; }");
    assert_eq!(out, vec!["42"]);
}

#[test]
fn equality_is_structural_and_never_faults() {
    let mut vm = VM::new();
    let out = run_ok(
        &mut vm,
        "print 1 == 1; print \"x\" == \"x\"; print 1 == \"1\"; print nil == nil; print nil == false;",
    );
    assert_eq!(out, vec!["true", "true", "false", "true", "false"]);
}

#[test]
fn truthiness_of_not() {
    let mut vm = VM::new();
    let out = run_ok(&mut vm, "print !nil; print !false; print !0; print !\"\";");
    assert_eq!(out, vec!["true", "true", "false", "false"]);
}

#[test]
fn comparisons() {
    let mut vm = VM::new();
    let out = run_ok(&mut vm, "print 1 < 2; print 2 <= 2; print 3 > 4; print 4 >= 4; print 1 != 2;");
    assert_eq!(out, vec!["true", "true", "false", "true", "true"]);
}

#[test]
fn division_by_zero_is_runtime_fault() {
    let r = run_outcome("print 1 / 0;");
    match r {
        InterpretResult::RuntimeError(f) => {
            assert!(matches!(f, RuntimeFault::DivisionByZero { .. }));
            assert_eq!(f.message(), "Division by zero.");
        }
        _ => panic!("expected a division fault"),
    }
}

#[test]
fn negate_non_number_is_type_mismatch() {
    let r = run_outcome("print -\"a\";");
    match r {
        InterpretResult::RuntimeError(f) => {
            assert_eq!(f.message(), "Operand must be a number.");
        }
        _ => panic!("expected a type mismatch"),
    }
}

#[test]
fn fault_reports_source_line() {
    let r = run_outcome("var x = 1;\nprint x + \"a\";");
    match r {
        InterpretResult::RuntimeError(f) => assert_eq!(f.line(), 2),
        _ => panic!("expected a runtime fault"),
    }
}

#[test]
fn missing_expression_is_compile_error() {
    let r = run_outcome("print ;");
    match r {
        InterpretResult::CompileError(ds) => {
            assert!(ds.iter().any(|d| d.message() == "Expect expression."));
        }
        _ => panic!("expected a compile error"),
    }
}

#[test]
fn missing_semicolon_is_compile_error() {
    assert!(matches!(
        run_outcome("print 1"),
        InterpretResult::CompileError(_)
    ));
}

#[test]
fn unterminated_string_is_compile_error() {
    let r = run_outcome("print \"abc;");
    match r {
        InterpretResult::CompileError(ds) => {
            assert!(ds.iter().any(|d| d.message() == "Unterminated string."));
        }
        _ => panic!("expected a compile error"),
    }
}

#[test]
fn unexpected_character_is_compile_error() {
    let r = run_outcome("print 1 @ 2;");
    match r {
        InterpretResult::CompileError(ds) => {
            assert!(ds.iter().any(|d| d.message() == "Unexpected character."));
        }
        _ => panic!("expected a compile error"),
    }
}

#[test]
fn fractional_literal_is_compile_error() {
    let r = run_outcome("print 1.5;");
    match r {
        InterpretResult::CompileError(ds) => {
            assert!(ds
                .iter()
                .any(|d| d.message() == "Number literal is not a valid integer."));
        }
        _ => panic!("expected a compile error"),
    }
}

#[test]
fn oversized_literal_is_compile_error() {
    assert!(matches!(
        run_outcome("print 99999999999999999999;"),
        InterpretResult::CompileError(_)
    ));
}

#[test]
fn invalid_assignment_target_is_compile_error() {
    let r = run_outcome("var a = 1; var b = 2; a + b = 3;");
    match r {
        InterpretResult::CompileError(ds) => {
            assert!(ds.iter().any(|d| d.message() == "Invalid assignment target."));
        }
        _ => panic!("expected a compile error"),
    }
}

#[test]
fn resynchronization_reports_multiple_errors() {
    let r = run_outcome("print ; print ;");
    match r {
        InterpretResult::CompileError(ds) => assert!(ds.len() >= 2),
        _ => panic!("expected compile errors"),
    }
}

#[test]
fn nothing_executes_on_compile_error() {
    let mut vm = VM::new();
    let r = vm.interpret("print 1; print ;", FUEL);
    assert!(matches!(r, InterpretResult::CompileError(_)));
    assert!(vm.output.is_empty());
}

#[test]
fn infinite_loop_runs_out_of_steps() {
    let mut vm = VM::new();
    let r = vm.interpret("while (true) {}", 10_000);
    assert!(matches!(r, InterpretResult::OutOfSteps));
}

#[test]
fn booleans_and_nil_render() {
    let mut vm = VM::new();
    let out = run_ok(&mut vm, "print true; print false; print nil;");
    assert_eq!(out, vec!["true", "false", "nil"]);
}

#[test]
fn empty_source_succeeds_silently() {
    let mut vm = VM::new();
    let out = run_ok(&mut vm, "");
    assert!(out.is_empty());
    assert!(vm.stack.is_empty());
}

#[test]
fn output_resets_between_runs_but_globals_persist() {
    let mut vm = VM::new();
    assert_eq!(run_ok(&mut vm, "var a = 10; print a;"), vec!["10"]);
    assert_eq!(run_ok(&mut vm, "print a * 2;"), vec!["20"]);
}

#[test]
fn nested_scopes_balance() {
    let mut vm = VM::new();
    let out = run_ok(
        &mut vm,
        "{ var a = 1; { var b = 2; { var c = 3; print a + b + c; } } print a; }",
    );
    assert_eq!(out, vec!["6", "1"]);
    assert!(vm.stack.is_empty());
}

#[test]
fn addition_wraps_at_the_top_of_the_range() {
    let mut vm = VM::new();
    assert_eq!(
        run_ok(&mut vm, "print 9223372036854775807 + 1;"),
        vec!["-9223372036854775808"]
    );
}

#[test]
fn division_truncates_toward_zero() {
    let mut vm = VM::new();
    let out = run_ok(&mut vm, "print (0 - 7) / 2; print 7 / (0 - 2);");
    assert_eq!(out, vec!["-3", "-3"]);
}

#[test]
fn nested_control_flow() {
    let mut vm = VM::new();
    let out = run_ok(
        &mut vm,
        "var total = 0; for (var i = 1; i < 4; i = i + 1) { if (i == 2) { total = total + 10; } else { total = total + i; } } print total;",
    );
    assert_eq!(out, vec!["14"]);
    assert!(vm.stack.is_empty());
}

#[test]
fn faulting_operators_consume_their_operands() {
    let mut vm = VM::new();
    let r = vm.interpret("print \"a\" + 1;", FUEL);
    assert!(matches!(
        r,
        InterpretResult::RuntimeError(RuntimeFault::TypeMismatch { .. })
    ));
    assert!(vm.stack.is_empty());
    let mut vm2 = VM::new();
    let r2 = vm2.interpret("print 1 / 0;", FUEL);
    assert!(matches!(
        r2,
        InterpretResult::RuntimeError(RuntimeFault::DivisionByZero { .. })
    ));
    assert!(vm2.stack.is_empty());
}

#[test]
fn statement_cannot_begin_with_punctuation() {
    assert!(matches!(run_outcome(";"), InterpretResult::CompileError(_)));
    assert!(matches!(run_outcome(") x"), InterpretResult::CompileError(_)));
    assert!(matches!(run_outcome("else {}"), InterpretResult::CompileError(_)));
}

#[test]
fn printing_one_literal_prints_its_rendering() {
    let mut vm = VM::new();
    assert_eq!(run_ok(&mut vm, "print 42;"), vec!["42"]);
    assert!(vm.stack.is_empty());
    assert!(vm.globals.is_empty());
}
